//! Difficulty retarget.
//!
//! Every ten blocks the target is scaled by the time the last ten blocks took
//! over the time they should have taken, by at most a factor of four either
//! way and within the network's bounds. In between it carries forward.

use vstd::prelude::*;
use std::collections::BTreeMap;
use crate::block::BlockHeader;
use crate::bytes;
use crate::consensus::headers;
use crate::consensus::headers::Headers;
use crate::consensus::params;
use crate::consensus::params::ChainParams;
use crate::constants::{
    DIFFICULTY_ADJUSTMENT_WINDOW, MAX_DIFFICULTY_DECREASE_FACTOR, TARGET_BLOCK_TIME_SECS,
};
use crate::error::{CoreError, ErrorKind, Fault, Result};
use crate::text;
use crate::types;
use crate::types::{CompactTarget, NetworkId};
use crate::u256;
use crate::u256::U256;

verus! {

/// Multiply by one number and divide by another, rounding down. Gives nothing
/// when the outcome does not fit, and zero when either number is zero.
pub fn mul_div(value: &U256, num: u64, den: u64) -> (r: Option<U256>)
    ensures
        match r {
            Some(v) => if num == 0 || den == 0 {
                v@ == 0
            } else {
                v@ == (value@ * num) / (den as int)
            },
            None => num != 0 && den != 0 && (value@ * num) / (den as int) >= u256::u256_limit(),
        },
{
    if den == 0 || num == 0 {
        return Some(U256::zero());
    }
    value.mul_div_limb(num, den)
}

/// Seconds that the blocks of a window should take: one interval fewer than
/// there are blocks.
pub open spec fn window_seconds() -> nat {
    90
}

/// A target scaled by the time its window took, if it fits 256 bits.
pub open spec fn scaled_target(old: nat, seconds: nat) -> Option<nat> {
    let v = old * seconds / window_seconds();
    if v < u256::u256_limit() {
        Some(v)
    } else {
        None
    }
}

/// A target held to within a factor of four of the old one.
pub open spec fn clamp_step(old: nat, new: nat) -> nat {
    if new < old / 4 {
        old / 4
    } else if new > old * 4 {
        old * 4
    } else {
        new
    }
}

/// A target held to the network's bounds.
pub open spec fn clamp_bounds(t: nat, min: nat, max: nat) -> nat {
    if t < min {
        min
    } else if t > max {
        max
    } else {
        t
    }
}

/// The seconds between two timestamps, and one if there are none.
pub open spec fn elapsed(start: u64, end: u64) -> nat {
    if end > start {
        (end - start) as nat
    } else {
        1
    }
}

/// The bits after a window that took some seconds.
pub open spec fn retargeted(bits: u32, seconds: nat, params: ChainParams) -> Option<u32> {
    let old = types::compact_value(bits);
    match scaled_target(old, seconds) {
        Some(new) => Some(
            types::compact_of(
                clamp_bounds(
                    clamp_step(old, new),
                    bytes::be_value(params.min_target@),
                    bytes::be_value(params.max_target@),
                ),
            ),
        ),
        None => None,
    }
}

/// The complaint that the header at a height is not at hand.
pub open spec fn missing_at(height: u32) -> Fault {
    ErrorKind::InvalidDifficulty.because(
        "missing header for height "@ + text::decimal(height as nat),
    )
}

/// The bits that the block at a height must declare.
pub open spec fn bits_for(height: u32, headers: Headers, params: ChainParams) -> std::result::Result<
    CompactTarget,
    Fault,
> {
    let prev = (height - 1) as u32;
    if height == 0 {
        Ok(params.genesis_bits)
    } else if !headers.contains_key(prev) {
        Err(missing_at(prev))
    } else if params.no_retargeting || height % DIFFICULTY_ADJUSTMENT_WINDOW != 0 {
        Ok(headers[prev].bits)
    } else if !headers.contains_key((height - DIFFICULTY_ADJUSTMENT_WINDOW) as u32) {
        Err(missing_at((height - DIFFICULTY_ADJUSTMENT_WINDOW) as u32))
    } else {
        let start = headers[(height - DIFFICULTY_ADJUSTMENT_WINDOW) as u32];
        match retargeted(
            headers[prev].bits.0,
            elapsed(start.timestamp, headers[prev].timestamp),
            params,
        ) {
            Some(b) => Ok(CompactTarget(b)),
            None => Err(
                ErrorKind::InvalidDifficulty.because("difficulty calculation overflow"@),
            ),
        }
    }
}

/// Determine the target bits for a height on the devnet.
pub fn calculate_target_for_height(height: u32, headers: &BTreeMap<u32, BlockHeader>) -> (r: Result<
    CompactTarget,
>)
    ensures
        exists|p: ChainParams|
            crate::consensus::params::params_for(p, crate::types::NetworkId::Devnet)
                && match #[trigger] bits_for(height, headers@, p) {
                Ok(b) => r == Ok::<CompactTarget, CoreError>(b),
                Err(k) => r matches Err(e) && e.fault() == k,
            },
{
    let params = ChainParams::devnet();
    let r = calculate_target_for_height_with(height, headers, &params);
    assert(match bits_for(height, headers@, params) {
        Ok(b) => r == Ok::<CompactTarget, CoreError>(b),
        Err(k) => r matches Err(e) && e.fault() == k,
    });
    r
}

/// Determine the target bits for a height under a network's rules.
pub fn calculate_target_for_height_with(
    height: u32,
    headers: &BTreeMap<u32, BlockHeader>,
    params: &ChainParams,
) -> (r: Result<CompactTarget>)
    ensures
        match bits_for(height, headers@, *params) {
            Ok(b) => r == Ok::<CompactTarget, CoreError>(b),
            Err(k) => r matches Err(e) && e.fault() == k,
        },
{
    if height == 0 {
        return Ok(params.genesis_bits);
    }
    let prev = match headers::header_at(headers, height - 1) {
        Some(h) => h,
        None => {
            return Err(missing(height - 1));
        },
    };
    if params.no_retargeting || height % DIFFICULTY_ADJUSTMENT_WINDOW != 0 {
        return Ok(prev.bits);
    }
    let window_start: u32 = height - DIFFICULTY_ADJUSTMENT_WINDOW;
    let start = match headers::header_at(headers, window_start) {
        Some(h) => h,
        None => {
            return Err(missing(window_start));
        },
    };
    let seconds: u64 = if prev.timestamp > start.timestamp {
        prev.timestamp - start.timestamp
    } else {
        1
    };
    let target_time: u64 = TARGET_BLOCK_TIME_SECS * (DIFFICULTY_ADJUSTMENT_WINDOW - 1) as u64;
    let old = U256::from_be_bytes(&prev.bits.to_full_target());
    let new = match mul_div(&old, seconds, target_time) {
        Some(t) => t,
        None => {
            return Err(
                CoreError::InvalidDifficulty("difficulty calculation overflow".to_string()),
            );
        },
    };
    let low = old.div(&U256::from_u64(MAX_DIFFICULTY_DECREASE_FACTOR));
    let stepped = if new < low {
        low
    } else {
        step_down(&new, &old)
    };
    let min_abs = U256::from_be_bytes(&params.min_target);
    let max_abs = U256::from_be_bytes(&params.max_target);
    let bounded = if stepped < min_abs {
        min_abs
    } else if stepped > max_abs {
        max_abs
    } else {
        stepped
    };
    Ok(CompactTarget::from_full_target(&bounded.to_be_bytes()))
}

fn missing(height: u32) -> (e: CoreError)
    ensures
        e.fault() == missing_at(height),
{
    CoreError::InvalidDifficulty(text::phrase1("missing header for height ", height as u64))
}

/// A target held to at most four times the old one.
fn step_down(new: &U256, old: &U256) -> (r: U256)
    ensures
        r@ == if new@ > old@ * 4 {
            old@ * 4
        } else {
            new@
        },
{
    proof {
        u256::lemma_u256_bound(*new);
    }
    match old.checked_add(old) {
        Some(twice) => match twice.checked_add(&twice) {
            Some(high) => if *new > high {
                high
            } else {
                *new
            },
            None => *new,
        },
        None => *new,
    }
}

// ---------------------------------------------------------------------------
// Laws
// ---------------------------------------------------------------------------

/// One retarget moves the target by at most a factor of four before the
/// network's bounds apply, down when blocks came fast and up when they came
/// slowly, and not at all when they came on time.
pub proof fn retarget_moves_with_the_pace(old: nat, seconds: nat)
    requires
        scaled_target(old, seconds) is Some,
    ensures
        ({
            let new = clamp_step(old, scaled_target(old, seconds)->0);
            &&& old / 4 <= new <= 4 * old
            &&& seconds <= window_seconds() ==> new <= old
            &&& seconds >= window_seconds() ==> new >= old
            &&& seconds == window_seconds() ==> new == old
        }),
{
    let v = old * seconds / window_seconds();
    if seconds <= 90 {
        assert(old * seconds <= old * 90) by (nonlinear_arith)
            requires
                seconds <= 90,
        ;
    }
    if seconds >= 90 {
        assert(old * seconds >= old * 90) by (nonlinear_arith)
            requires
                seconds >= 90,
        ;
    }
}

/// The target that a retarget settles on lies within the network's bounds
/// before it is rounded.
pub proof fn retarget_stays_within_bounds(t: nat, min: nat, max: nat)
    requires
        min <= max,
    ensures
        min <= clamp_bounds(t, min, max) <= max,
        min <= t <= max ==> clamp_bounds(t, min, max) == t,
{
}

/// Rounding a target to its compact form keeps it within bounds, if the lower
/// one has a compact form itself.
pub proof fn rounding_keeps_the_bounds(t: nat, min_bits: u32, max: nat)
    requires
        types::plain_bits(min_bits),
        types::compact_value(min_bits) <= max,
        2 * max < u256::u256_limit(),
    ensures
        ({
            let min = types::compact_value(min_bits);
            min <= types::compact_value(types::compact_of(clamp_bounds(t, min, max))) <= max
        }),
{
    bytes::lemma_pow256_values();
    types::compact_fits_best(
        clamp_bounds(t, types::compact_value(min_bits), max),
        min_bits,
    );
}

/// The bits of the hardest target that a retarget may produce.
pub open spec fn hardest_bits() -> u32 {
    0x1700ffff
}

/// The hardest target has a compact form, and both bounds are in order.
pub proof fn lemma_default_bounds()
    ensures
        types::plain_bits(hardest_bits()),
        types::compact_value(hardest_bits()) == params::default_min_value(),
        1 < params::default_min_value() <= params::default_max_value(),
        2 * params::default_max_value() < u256::u256_limit(),
{
    bytes::lemma_pow256_values();
    bytes::lemma_pow256_add(16, 4);
    u256::lemma_pow2_values();
    vstd::arithmetic::power2::lemma2_to64();
    vstd::arithmetic::power2::lemma_pow2_adds(128, 32);
    vstd::arithmetic::power2::lemma_pow2_adds(192, 8);
}

/// The bits that a retarget settles on stand for a target within the bounds of
/// the network, whatever the old bits and however long the window took.
pub proof fn retargeted_bits_stay_within_bounds(
    bits: u32,
    seconds: nat,
    p: ChainParams,
    network: NetworkId,
)
    requires
        params::params_for(p, network),
        network != NetworkId::Regtest,
        retargeted(bits, seconds, p) is Some,
    ensures
        params::default_min_value() <= types::compact_value(retargeted(bits, seconds, p)->0)
            <= params::default_max_value(),
{
    lemma_default_bounds();
    let old = types::compact_value(bits);
    rounding_keeps_the_bounds(
        clamp_step(old, scaled_target(old, seconds)->0),
        hardest_bits(),
        params::default_max_value(),
    );
}

/// Blocks that come on time leave the bits alone, if these are in normal form
/// and stand for a target within the bounds.
pub proof fn on_time_blocks_keep_the_bits(bits: u32, params: ChainParams)
    requires
        3 <= bits / 0x100_0000 <= 32,
        0x8000 <= bits % 0x100_0000 < 0x80_0000,
        bytes::be_value(params.min_target@) <= types::compact_value(bits) <= bytes::be_value(
            params.max_target@,
        ),
    ensures
        retargeted(bits, window_seconds(), params) == Some(bits),
{
    let old = types::compact_value(bits);
    bytes::lemma_be_value_bound(params.max_target@);
    bytes::lemma_pow256_values();
    types::compact_roundtrip(bits);
    assert(old * 90 / 90 == old);
    retarget_moves_with_the_pace(old, window_seconds());
}

/// At every tenth height of a network that retargets, the target is the last
/// one times the seconds between the timestamps of the first and the last block
/// of the window, divided by ninety. It is held to a quarter and to four times
/// the last target, then to the network's bounds, and then rounded down to bits:
/// no plain bits come closer from below. Timestamps that do not advance count as
/// one second.
pub proof fn retarget_follows_the_timestamps(
    height: u32,
    headers: Headers,
    p: ChainParams,
    other: u32,
)
    requires
        height > 0,
        height % 10 == 0,
        !p.no_retargeting,
        headers.contains_key((height - 1) as u32),
        headers.contains_key((height - 10) as u32),
        bytes::be_value(p.min_target@) <= bytes::be_value(p.max_target@),
        2 * bytes::be_value(p.max_target@) < bytes::pow256(32),
    ensures
        ({
            let last = headers[(height - 1) as u32];
            let first = headers[(height - 10) as u32];
            let old = types::compact_value(last.bits.0) as int;
            let seconds = if last.timestamp > first.timestamp {
                last.timestamp - first.timestamp
            } else {
                1
            };
            let exact = old * seconds / 90;
            let stepped = if exact < old / 4 {
                old / 4
            } else if exact > 4 * old {
                4 * old
            } else {
                exact
            };
            let low = bytes::be_value(p.min_target@) as int;
            let high = bytes::be_value(p.max_target@) as int;
            let bounded = if stepped < low {
                low
            } else if stepped > high {
                high
            } else {
                stepped
            };
            &&& exact < bytes::pow256(32) ==> (bits_for(height, headers, p) matches Ok(bits) && {
                &&& types::plain_bits(bits.0)
                &&& types::compact_value(bits.0) <= bounded
                &&& types::plain_bits(other) && types::compact_value(other) <= bounded
                    ==> types::compact_value(other) <= types::compact_value(bits.0)
                &&& bits.0 == types::compact_of(bounded as nat)
            })
            &&& exact >= bytes::pow256(32) ==> bits_for(height, headers, p) is Err
        }),
{
    bytes::lemma_pow256_values();
    let last = headers[(height - 1) as u32];
    let first = headers[(height - 10) as u32];
    let old = types::compact_value(last.bits.0);
    let seconds = elapsed(first.timestamp, last.timestamp);
    assert(old * seconds >= 0) by (nonlinear_arith)
        requires
            old >= 0,
            seconds >= 0,
    ;
    let t = clamp_bounds(
        clamp_step(old, (old * seconds / 90) as nat),
        bytes::be_value(p.min_target@),
        bytes::be_value(p.max_target@),
    );
    types::compact_form_is_plain(t);
    types::compact_rounds_down(t);
    if types::plain_bits(other) && types::compact_value(other) <= t {
        types::compact_fits_best(t, other);
    }
}

/// At every other height, and at every height of a network that does not
/// retarget, the bits are those of the block before; the first block has the
/// network's own. Without the header before there are none.
pub proof fn bits_carry_forward(height: u32, headers: Headers, p: ChainParams)
    ensures
        bits_for(0, headers, p) == Ok::<CompactTarget, Fault>(p.genesis_bits),
        height > 0 && (p.no_retargeting || height % 10 != 0) && headers.contains_key(
            (height - 1) as u32,
        ) ==> bits_for(height, headers, p) == Ok::<CompactTarget, Fault>(
            headers[(height - 1) as u32].bits,
        ),
        height > 0 && !headers.contains_key((height - 1) as u32) ==> bits_for(height, headers, p)
            is Err,
{
}

/// Only the headers of the window decide: two chains of headers that agree from
/// ten below a height on ask for the same bits there.
pub proof fn bits_depend_on_the_window_alone(height: u32, a: Headers, b: Headers, p: ChainParams)
    requires
        height > 0,
        forall|k: u32|
            height <= k + 10 && k < height ==> (#[trigger] a.contains_key(k) <==> b.contains_key(k))
                && a[k] == b[k],
    ensures
        bits_for(height, a, p) == bits_for(height, b, p),
{
    let prev = (height - 1) as u32;
    assert(a.contains_key(prev) <==> b.contains_key(prev));
    if height >= 10 {
        let start = (height - 10) as u32;
        assert(a.contains_key(start) <==> b.contains_key(start));
    }
}

} // verus!
