//! Which frame rate a game aims at, told by the rate that it runs at.

use crate::binary64::{difference, integer, less, one_in_units, opposite, sum, Binary64};
use crate::buffer::{
    at_ceiling, ceiling_tier, highest, lemma_ceiling_tier, lemma_highest, lemma_next_tier,
    next_target, next_tier, tiers, within_reach, TargetFpsState,
};
use crate::config::TargetFps;
use crate::exactness::{lemma_integer_value, lemma_value_order, value, within};
use crate::ordering::{lemma_integer_exact, lemma_with_sign};
use vstd::arithmetic::power2::lemma_pow2_pos;
use vstd::prelude::*;

verus! {

/// Sums of whole numbers are exact.
pub proof fn lemma_whole_sum(a: int, b: int)
    requires
        0 <= a < 0x10_0000_0000_0000,
        -0x10_0000_0000_0000 < b < 0x10_0000_0000_0000,
    ensures
        sum(integer(a), if b >= 0 {
            integer(b)
        } else {
            opposite(integer(-b))
        }).finite(),
        value(sum(integer(a), if b >= 0 {
            integer(b)
        } else {
            opposite(integer(-b))
        })) == (a + b) as real,
{
    let one = one_in_units();
    let x = integer(a);
    let m: nat = (if b >= 0 {
        b
    } else {
        -b
    }) as nat;
    let y = if b >= 0 {
        integer(b)
    } else {
        opposite(integer(-b))
    };
    lemma_pow2_pos(1074);
    lemma_integer_exact(a as nat);
    lemma_integer_exact(m);
    lemma_with_sign(true, integer(m as int).magnitude());
    assert(x.units() + y.units() == (a + b) * one) by (nonlinear_arith)
        requires
            x.units() == a * one,
            b >= 0 ==> y.units() == m * one && m == b,
            b < 0 ==> y.units() == -(m * one) && m == -b,
    ;
    lemma_integer_value(a + b);
    if (a + b) * one == 0 {
        assert(a + b == 0) by (nonlinear_arith)
            requires
                (a + b) * one == 0,
                one > 0,
        ;
        let z = sum(x, y);
        lemma_with_sign(x.negative() && y.negative(), 0);
        lemma_value_order(z, z);
    } else {
        assert(sum(x, y) == integer(a + b));
    }
}

/// A rate is at the ceiling of a tier if and only if it is no more than three frames per second
/// off it, and within its reach if and only if it is no more than three above.
pub proof fn lemma_ceiling_value(fps: Binary64, tier: u32)
    requires
        fps.finite(),
    ensures
        at_ceiling(fps, tier) <==> within(value(fps), tier as real, 3 as real),
        within_reach(fps, tier) <==> value(fps) <= tier as real + 3 as real,
        less(fps, integer(15)) <==> value(fps) < 15 as real,
{
    let low = difference(integer(tier as int), integer(3));
    let high = sum(integer(tier as int), integer(3));
    lemma_whole_sum(tier as int, 3);
    lemma_whole_sum(tier as int, -3);
    lemma_integer_value(15);
    lemma_value_order(low, fps);
    lemma_value_order(fps, high);
    lemma_value_order(fps, integer(15));
}

/// A tier is the highest one.
pub open spec fn is_highest(list: Seq<u32>, tier: u32) -> bool {
    list.contains(tier) && forall|i: int| 0 <= i < list.len() ==> #[trigger] list[i] <= tier
}

/// A tier is the highest of those that a rate is no more than three off.
pub open spec fn is_nearest(list: Seq<u32>, rate: real, tier: u32) -> bool {
    &&& list.contains(tier)
    &&& within(rate, tier as real, 3 as real)
    &&& forall|i: int|
        0 <= i < list.len() && within(rate, (#[trigger] list[i]) as real, 3 as real) ==> list[i]
            <= tier
}

proof fn lemma_highest_unique(list: Seq<u32>, tier: u32)
    requires
        is_highest(list, tier),
    ensures
        highest(list) == tier,
        list.len() > 0,
{
    lemma_highest(list);
    let i = choose|i: int| 0 <= i < list.len() && list[i] == highest(list);
    assert(list[i] <= tier);
}

/// Outside of a cooldown, a rate of at least 15 that is not near a tier below the highest has the
/// highest tier as its target, also where it is above all tiers. It then starts a cooldown of 30
/// calls.
pub proof fn lemma_target_is_highest(state: TargetFpsState, fps: Binary64, tier: u32)
    requires
        state.cooldown_remaining == 0,
        is_highest(tiers(state.target_fps_config), tier),
        fps.finite(),
        value(fps) >= 15 as real,
        within(value(fps), tier as real, 3 as real) || forall|i: int|
            0 <= i < tiers(state.target_fps_config).len() ==> !within(
                value(fps),
                (#[trigger] tiers(state.target_fps_config)[i]) as real,
                3 as real,
            ),
    ensures
        next_target(state, fps).0 == Some(tier),
        next_target(state, fps).1 == (if value(fps) <= tier as real + 3 as real {
            TargetFpsState { upgrade_attempts: 0, last_target: Some(tier), ..state }
        } else {
            TargetFpsState { upgrade_attempts: 0, cooldown_remaining: 30, ..state }
        }),
{
    let list = tiers(state.target_fps_config);
    lemma_highest_unique(list, tier);
    lemma_ceiling_value(fps, tier);
    lemma_ceiling_tier(list, fps);
    if let Some(c) = ceiling_tier(list, fps) {
        lemma_ceiling_value(fps, c);
        let k = choose|k: int| 0 <= k < list.len() && list[k] == tier;
        assert(list[k] == tier);
        let j = choose|j: int| 0 <= j < list.len() && list[j] == c;
        assert(within(value(fps), list[j] as real, 3 as real));
        assert(at_ceiling(fps, list[k]));
    }
}

/// A rate that is no number, or is beyond all numbers, counts as above all tiers.
pub proof fn lemma_target_of_no_rate(state: TargetFpsState, fps: Binary64, tier: u32)
    requires
        state.cooldown_remaining == 0,
        is_highest(tiers(state.target_fps_config), tier),
        fps.nan() || fps.infinite() && !fps.negative(),
    ensures
        next_target(state, fps).0 == Some(tier),
        next_target(state, fps).1.cooldown_remaining == 30,
{
    let list = tiers(state.target_fps_config);
    lemma_highest_unique(list, tier);
    lemma_ceiling_tier(list, fps);
    lemma_whole_sum(tier as int, 3);
    lemma_integer_exact(15);
    if let Some(c) = ceiling_tier(list, fps) {
        lemma_whole_sum(c as int, 3);
    }
}

/// Outside of a cooldown, a rate of at least 15 near a tier below the highest stays with that tier
/// for two calls in a row.
pub proof fn lemma_target_is_nearest(state: TargetFpsState, fps: Binary64, tier: u32, top: u32)
    requires
        state.cooldown_remaining == 0,
        state.upgrade_attempts < 2,
        is_highest(tiers(state.target_fps_config), top),
        tier < top,
        fps.finite(),
        value(fps) >= 15 as real,
        is_nearest(tiers(state.target_fps_config), value(fps), tier),
    ensures
        next_target(state, fps) == (
            Some(tier),
            TargetFpsState {
                upgrade_attempts: (state.upgrade_attempts + 1) as u32,
                last_target: Some(tier),
                ..state
            },
        ),
{
    lemma_nearest_is_ceiling(tiers(state.target_fps_config), fps, tier);
    lemma_highest_unique(tiers(state.target_fps_config), top);
    lemma_ceiling_value(fps, tier);
}

proof fn lemma_nearest_is_ceiling(list: Seq<u32>, fps: Binary64, tier: u32)
    requires
        fps.finite(),
        is_nearest(list, value(fps), tier),
    ensures
        ceiling_tier(list, fps) == Some(tier),
{
    lemma_ceiling_tier(list, fps);
    lemma_ceiling_value(fps, tier);
    let k = choose|k: int| 0 <= k < list.len() && list[k] == tier;
    assert(at_ceiling(fps, list[k]));
    let c = ceiling_tier(list, fps)->0;
    lemma_ceiling_value(fps, c);
    let j = choose|j: int| 0 <= j < list.len() && list[j] == c;
    assert(within(value(fps), list[j] as real, 3 as real));
}

/// The third call in a row at a rate near a tier below the highest moves up to the next tier:
/// the lowest one above it.
pub proof fn lemma_target_moves_up(state: TargetFpsState, fps: Binary64, tier: u32, next: u32)
    requires
        state.cooldown_remaining == 0,
        state.upgrade_attempts >= 2,
        fps.finite(),
        value(fps) >= 15 as real,
        is_nearest(tiers(state.target_fps_config), value(fps), tier),
        tiers(state.target_fps_config).contains(next),
        tier < next,
        forall|i: int|
            0 <= i < tiers(state.target_fps_config).len() ==> {
                ||| #[trigger] tiers(state.target_fps_config)[i] <= tier
                ||| tiers(state.target_fps_config)[i] >= next
            },
    ensures
        next_target(state, fps) == (
            Some(next),
            TargetFpsState { upgrade_attempts: 0, last_target: Some(next), ..state },
        ),
{
    let list = tiers(state.target_fps_config);
    lemma_nearest_is_ceiling(list, fps, tier);
    lemma_highest(list);
    lemma_next_tier(list, tier);
    lemma_ceiling_value(fps, tier);
    let k = choose|k: int| 0 <= k < list.len() && list[k] == next;
    assert(list[k] <= highest(list));
    let t = next_tier(list, tier)->0;
    assert(list[k] > tier);
    let j = choose|j: int| 0 <= j < list.len() && list[j] == t;
    assert(list[j] >= next);
}

/// A rate below 15 has no target, outside of a cooldown, and starts the count of attempts anew.
pub proof fn lemma_slow_rate(state: TargetFpsState, fps: Binary64)
    requires
        state.cooldown_remaining == 0,
        fps.finite(),
        value(fps) < 15 as real,
    ensures
        next_target(state, fps) == (None::<u32>, TargetFpsState { upgrade_attempts: 0, ..state }),
{
    lemma_ceiling_value(fps, 0);
}

/// The tiers of a configuration are those that it lists, or the one that it names.
pub proof fn lemma_tiers_listed(config: TargetFps, tier: u32)
    ensures
        match config {
            TargetFps::Value(t) => tiers(config).contains(tier) <==> tier == t,
            TargetFps::Array(v) => tiers(config).contains(tier) <==> v@.contains(tier),
        },
{
    if let TargetFps::Value(t) = config {
        assert(tiers(config)[0] == t);
    }
}

/// Without tiers there is no target, and a rate of at least 15 then starts a cooldown.
pub proof fn lemma_no_tiers(state: TargetFpsState, fps: Binary64)
    requires
        state.cooldown_remaining == 0,
        tiers(state.target_fps_config).len() == 0,
        fps.finite(),
    ensures
        next_target(state, fps).0 is None,
        next_target(state, fps).1.cooldown_remaining == (if value(fps) < 15 as real {
            0
        } else {
            30u32
        }),
{
    lemma_integer_value(15);
    lemma_value_order(fps, integer(15));
}

} // verus!
