//! What the controller and the scheduler keep to, whatever the frames bring.

use crate::binary64::{
    at_most, clamped, difference, integer, less, nearest_signed, one_in_units, opposite, product,
    quotient, ratio, sum, units_of, whole_part, Binary64, MAX_NANOS,
};
use crate::buffer::Buffer;
use crate::config::MarginFps;
use crate::control::{
    chosen_control, control_defined, control_step, deficit, frame_error, held_demand, margin_of,
    max_step, measured_fps, newest_frame, next_mode, next_offset, proportional_answer, raw_control,
    state_after, step_down, step_up, thermal_target, ControlInput, ControllerState,
};
use crate::cpu_info::Info;
use crate::looper::{
    disabled, enabled, fresh_controller, gone, highest_demand, highest_freq, highest_of,
    policy_begun, policy_due, retained, target_changed, windows_followed, Action, Looper, State,
    DELAY_TIME,
};
use crate::ordering::{
    lemma_difference_antitone, lemma_integer_exact, lemma_integer_finite, lemma_integer_monotone,
    lemma_nearest_at_least, lemma_nearest_at_most, lemma_nearest_exact,
    lemma_nearest_signed_monotone, lemma_order_is_value, lemma_product_commutes,
    lemma_product_monotone, lemma_product_one, lemma_product_shrinks, lemma_quotient_at_least_one,
    lemma_quotient_at_most_one, lemma_quotient_monotone, lemma_sum_commutes, lemma_sum_monotone,
    lemma_sum_order, lemma_whole_part_monotone, lemma_whole_part_opposite, lemma_with_sign,
};
use crate::params::{default_params, ControllerParams};
use crate::rounding::nearest;
use crate::timing::{elapsed, stretches, Moment, MILLISECOND, SECOND};
use vstd::arithmetic::div_mod::lemma_fundamental_div_mod_converse;
use vstd::arithmetic::power2::{
    lemma2_to64, lemma2_to64_rest, lemma_pow2_adds, lemma_pow2_pos, lemma_pow2_strictly_increases,
    pow2,
};
use vstd::prelude::*;

verus! {

/// The parameters for the step down make sense: the low mark of the demand is above zero, and
/// the shares of the highest frequency are not negative.
pub open spec fn sound(params: ControllerParams) -> bool {
    &&& params.demand_low.finite() && params.demand_low.order() > 0
    &&& params.demand_step_base.finite() && !params.demand_step_base.negative()
    &&& params.demand_step_scale.finite() && !params.demand_step_scale.negative()
    &&& sum(params.demand_step_base, params.demand_step_scale).finite()
}

/// The default parameters make sense.
pub proof fn lemma_default_params_sound()
    ensures
        sound(default_params()),
{
    let params = default_params();
    let base = params.demand_step_base;
    let scale = params.demand_step_scale;
    lemma_ratio_bounded(60, 100);
    lemma_ratio_bounded(5, 100);
    lemma_ratio_bounded(15, 100);
    lemma_integer_exact(1);
    lemma_integer_exact(2);
    lemma_pow2_pos(1074);
    lemma_sum_order(base, scale);
    lemma_order_is_value(base, integer(1));
    lemma_order_is_value(scale, integer(1));
    lemma_nearest_signed_monotone(base.units() + scale.units(), (2 * one_in_units()) as int, 1);
    assert(integer(2) == nearest_signed((2 * one_in_units()) as int, 1));
}

proof fn lemma_ratio_bounded(p: nat, q: nat)
    requires
        0 < p <= q < 0x20_0000_0000_0000,
    ensures
        ratio(p as int, q as int).finite(),
        !ratio(p as int, q as int).negative(),
        at_most(ratio(p as int, q as int), integer(1)),
        ratio(p as int, q as int).order() > 0,
{
    let a = integer(p as int);
    let b = integer(q as int);
    let one = one_in_units();
    lemma_integer_exact(p);
    lemma_integer_exact(q);
    lemma_integer_monotone(p as int, q as int);
    lemma_pow2_pos(1074);
    assert(q * one > 0) by (nonlinear_arith)
        requires
            q > 0,
            one > 0,
    ;
    lemma_order_is_value(b, b);
    lemma_quotient_at_most_one(a, b);
    lemma2_to64();
    lemma2_to64_rest();
    lemma_pow2_strictly_increases(53, 1074);
    assert((p * one) * one >= units_of(1) * (q * one)) by (nonlinear_arith)
        requires
            p >= 1,
            one >= q,
            units_of(1) == 1,
    ;
    lemma_nearest_at_least((p * one) * one, q * one, 1);
}

/// The proportional answer is held to the greatest step, up and down.
pub proof fn lemma_raw_control_bounded(
    state: ControllerState,
    frame: nat,
    target: nat,
    demand: Binary64,
)
    requires
        at_most(opposite(max_step(state)), max_step(state)),
    ensures
        ({
            let raw = raw_control(state, frame, target, demand);
            let most = whole_part(max_step(state));
            &&& whole_part(opposite(max_step(state))) <= raw <= most
            &&& most < isize::MAX ==> -most <= raw
        }),
{
    let m = max_step(state);
    let low = opposite(m);
    lemma_with_sign(!m.negative(), m.magnitude());
    let held = clamped(proportional_answer(state, frame, target, demand), low, m);
    lemma_whole_part_monotone(low, m);
    if whole_part(m) < isize::MAX {
        lemma_whole_part_opposite(m);
    }
    if !held.nan() {
        lemma_whole_part_monotone(low, held);
        lemma_whole_part_monotone(held, m);
    }
}

/// The factor that weakens a step up: the demand over the decay threshold, held from 0 to 1.
pub open spec fn decay(state: ControllerState, demand: Binary64) -> Binary64 {
    clamped(quotient(demand, state.params.util_decay_threshold), integer(0), integer(1))
}

proof fn lemma_decay_bounded(state: ControllerState, demand: Binary64)
    ensures
        decay(state, demand).nan() || {
            &&& at_most(integer(0), decay(state, demand))
            &&& at_most(decay(state, demand), integer(1))
            &&& decay(state, demand).finite()
        },
        integer(0).order() == 0,
{
    lemma_integer_exact(0);
    lemma_integer_exact(1);
    lemma_integer_monotone(0, 1);
    lemma_order_is_value(integer(0), integer(0));
}

/// While the proportional answer asks for a step up, the demand only weakens it: the answer is
/// from zero to the error, and all of the error from the decay threshold on.
pub proof fn lemma_demand_weakens(
    state: ControllerState,
    frame: nat,
    target: nat,
    demand: Binary64,
)
    requires
        state.params.util_decay_threshold.finite(),
        state.params.util_decay_threshold.order() > 0,
        demand.finite(),
        less(integer(0), frame_error(state, frame, target)),
        frame_error(state, frame, target).finite(),
    ensures
        ({
            let error = frame_error(state, frame, target);
            let answer = proportional_answer(state, frame, target, demand);
            &&& at_most(integer(0), answer)
            &&& at_most(answer, error)
            &&& at_most(state.params.util_decay_threshold, demand) ==> answer == error
        }),
{
    let threshold = state.params.util_decay_threshold;
    let error = frame_error(state, frame, target);
    let factor = decay(state, demand);
    lemma_decay_bounded(state, demand);
    lemma_quotient_monotone(demand, demand, threshold);
    if at_most(threshold, demand) {
        lemma_integer_exact(1);
        lemma_integer_monotone(0, 1);
        lemma_quotient_at_least_one(demand, threshold);
        assert(factor.order() == integer(1).order());
        assert(factor == integer(1));
        lemma_product_one(error);
    }
    lemma_product_monotone(factor, factor, error);
    lemma_product_commutes(error, factor);
    if !factor.negative() {
        lemma_product_shrinks(error, factor);
    }
}

/// The error of a frame is a number, unless the gain is none, and is on the side of zero that
/// the frame is of its target.
proof fn lemma_frame_error_sign(state: ControllerState, frame: nat, target: nat)
    requires
        !state.params.kp.negative(),
        frame <= MAX_NANOS,
        target <= MAX_NANOS,
    ensures
        frame_error(state, frame, target).nan() || {
            &&& frame >= target ==> frame_error(state, frame, target).order() >= 0
            &&& frame <= target ==> frame_error(state, frame, target).order() <= 0
        },
{
    let whole = integer(frame as int);
    let aim = integer(target as int);
    let miss = difference(whole, aim);
    let gap = whole.units() - aim.units();
    lemma_with_sign(!aim.negative(), aim.magnitude());
    lemma_long_span_finite(frame);
    lemma_long_span_finite(target);
    lemma_sum_order(whole, opposite(aim));
    lemma_order_is_value(whole, aim);
    lemma_sign_of_product(miss, state.params.kp);
    lemma_integer_exact(0);
    lemma_order_is_value(integer(0), integer(0));
    if frame >= target {
        lemma_integer_monotone(target as int, frame as int);
        lemma_nearest_signed_monotone(0, gap, 1);
    }
    if frame <= target {
        lemma_integer_monotone(frame as int, target as int);
        lemma_nearest_signed_monotone(gap, 0, 1);
    }
}

/// The whole part of a number held to the greatest step, zero for none.
proof fn lemma_held_sign(state: ControllerState, answer: Binary64)
    requires
        at_most(opposite(max_step(state)), max_step(state)),
    ensures
        ({
            let m = max_step(state);
            let raw = whole_part(clamped(answer, opposite(m), m));
            &&& answer.nan() ==> raw == 0
            &&& answer.order() >= 0 ==> raw >= 0
            &&& answer.order() <= 0 ==> raw <= 0
        }),
{
    let m = max_step(state);
    let held = clamped(answer, opposite(m), m);
    lemma_with_sign(!m.negative(), m.magnitude());
    if !held.nan() {
        lemma_whole_part_monotone(held, held);
    }
}

/// Holding to the greatest step keeps the order of two answers.
proof fn lemma_held_monotone(state: ControllerState, a: Binary64, b: Binary64)
    requires
        at_most(opposite(max_step(state)), max_step(state)),
        at_most(a, b),
    ensures
        ({
            let m = max_step(state);
            whole_part(clamped(a, opposite(m), m)) <= whole_part(clamped(b, opposite(m), m))
        }),
{
    let m = max_step(state);
    lemma_with_sign(!m.negative(), m.magnitude());
    lemma_whole_part_monotone(clamped(a, opposite(m), m), clamped(b, opposite(m), m));
}

/// The answer to a frame, where there is one, is on the side of zero that its error is.
proof fn lemma_answer_sign(state: ControllerState, frame: nat, target: nat, demand: Binary64)
    ensures
        ({
            let error = frame_error(state, frame, target);
            let answer = proportional_answer(state, frame, target, demand);
            &&& error.nan() ==> answer.nan()
            &&& !answer.nan() && error.order() >= 0 ==> answer.order() >= 0
            &&& !answer.nan() && error.order() <= 0 ==> answer.order() <= 0
        }),
{
    let error = frame_error(state, frame, target);
    let factor = decay(state, demand);
    lemma_decay_bounded(state, demand);
    if less(integer(0), error) && !factor.nan() {
        lemma_product_commutes(error, factor);
        lemma_sign_of_product(factor, error);
    }
}

/// A frame that missed its time is never answered by a step down, and one that came in time
/// never by a step up; one that came just in time is answered by nothing.
pub proof fn lemma_raw_control_direction(
    state: ControllerState,
    frame: nat,
    target: nat,
    demand: Binary64,
)
    requires
        !state.params.kp.negative(),
        frame <= MAX_NANOS,
        target <= MAX_NANOS,
        at_most(opposite(max_step(state)), max_step(state)),
    ensures
        frame >= target ==> raw_control(state, frame, target, demand) >= 0,
        frame <= target ==> raw_control(state, frame, target, demand) <= 0,
{
    lemma_frame_error_sign(state, frame, target);
    lemma_answer_sign(state, frame, target, demand);
    lemma_held_sign(state, proportional_answer(state, frame, target, demand));
}

/// A late frame is not answered while there is no demand, and the answer to one that came in
/// time does not depend on the demand.
pub proof fn lemma_raw_control_without_demand(
    state: ControllerState,
    frame: nat,
    target: nat,
    demand: Binary64,
    other: Binary64,
)
    requires
        !state.params.kp.negative(),
        frame <= MAX_NANOS,
        target <= MAX_NANOS,
        state.params.util_decay_threshold.order() > 0,
        at_most(opposite(max_step(state)), max_step(state)),
    ensures
        frame >= target && demand.magnitude() == 0 ==> raw_control(state, frame, target, demand)
            == 0,
        frame <= target ==> raw_control(state, frame, target, demand) == raw_control(
            state,
            frame,
            target,
            other,
        ),
{
    let error = frame_error(state, frame, target);
    let threshold = state.params.util_decay_threshold;
    lemma_frame_error_sign(state, frame, target);
    lemma_decay_bounded(state, demand);
    if frame >= target && demand.magnitude() == 0 {
        let share = quotient(demand, threshold);
        let factor = decay(state, demand);
        let answer = proportional_answer(state, frame, target, demand);
        if threshold.finite() {
            lemma_quotient_monotone(demand, demand, threshold);
        }
        assert(factor.nan() || factor.order() == 0);
        if less(integer(0), error) && !factor.nan() && error.finite() {
            lemma_product_monotone(factor, factor, error);
            lemma_product_commutes(error, factor);
        }
        lemma_held_sign(state, answer);
    }
}

/// The answer never falls as the frame grows longer.
pub proof fn lemma_raw_control_grows_with_frame(
    state: ControllerState,
    frame: nat,
    longer: nat,
    target: nat,
    demand: Binary64,
)
    requires
        !state.params.kp.negative(),
        frame <= longer <= MAX_NANOS,
        target <= MAX_NANOS,
        at_most(opposite(max_step(state)), max_step(state)),
    ensures
        raw_control(state, frame, target, demand) <= raw_control(state, longer, target, demand),
{
    let aim = integer(target as int);
    let a = integer(frame as int);
    let b = integer(longer as int);
    let e = frame_error(state, frame, target);
    let f = frame_error(state, longer, target);
    let factor = decay(state, demand);
    lemma_long_span_finite(frame);
    lemma_long_span_finite(longer);
    lemma_long_span_finite(target);
    lemma_integer_monotone(frame as int, longer as int);
    lemma_gap_ordered(a, b, aim);
    lemma_gap_finite(frame, target);
    lemma_gap_finite(longer, target);
    if state.params.kp.finite() {
        lemma_product_monotone(difference(a, aim), difference(b, aim), state.params.kp);
    } else {
        lemma_raw_control_direction(state, frame, target, demand);
        lemma_raw_control_direction(state, longer, target, demand);
        lemma_raw_control_bounded(state, longer, target, demand);
    }
    lemma_decay_bounded(state, demand);
    lemma_answer_sign(state, frame, target, demand);
    lemma_answer_sign(state, longer, target, demand);
    let x = proportional_answer(state, frame, target, demand);
    let y = proportional_answer(state, longer, target, demand);
    lemma_held_sign(state, x);
    lemma_held_sign(state, y);
    if e.order() > 0 && !factor.nan() {
        lemma_product_commutes(e, factor);
        lemma_product_commutes(f, factor);
        if f.finite() {
            lemma_scaled_ordered(e, f, factor);
        }
        if factor.order() == 0 && e.finite() {
            lemma_product_monotone(factor, factor, e);
        }
        if factor.order() > 0 && e.finite() {
            lemma_product_monotone(factor, factor, e);
        }
    }
    if at_most(x, y) {
        lemma_held_monotone(state, x, y);
    }
}

/// The answer never falls as the demand grows.
pub proof fn lemma_raw_control_grows_with_demand(
    state: ControllerState,
    frame: nat,
    target: nat,
    demand: Binary64,
    greater: Binary64,
)
    requires
        at_most(integer(0), demand),
        at_most(demand, greater),
        less(integer(0), state.params.util_decay_threshold),
        at_most(opposite(max_step(state)), max_step(state)),
    ensures
        raw_control(state, frame, target, demand) <= raw_control(state, frame, target, greater),
{
    let e = frame_error(state, frame, target);
    let a = decay(state, demand);
    let b = decay(state, greater);
    let x = proportional_answer(state, frame, target, demand);
    let y = proportional_answer(state, frame, target, greater);
    lemma_decay_bounded(state, demand);
    lemma_decay_bounded(state, greater);
    lemma_integer_exact(1);
    lemma_integer_monotone(0, 1);
    if state.params.util_decay_threshold.finite() {
        if greater.finite() {
            lemma_quotient_monotone(demand, greater, state.params.util_decay_threshold);
        } else if demand.finite() {
            lemma_quotient_monotone(demand, demand, state.params.util_decay_threshold);
        }
        assert(at_most(a, b));
    } else {
        assert(a.nan() || a.magnitude() == 0);
        assert(b.nan() || b.magnitude() == 0);
    }
    lemma_answer_sign(state, frame, target, demand);
    lemma_answer_sign(state, frame, target, greater);
    lemma_held_sign(state, x);
    lemma_held_sign(state, y);
    if less(integer(0), e) {
        lemma_product_commutes(e, a);
        lemma_product_commutes(e, b);
        if e.finite() && at_most(a, b) {
            lemma_product_monotone(a, b, e);
        } else if e.finite() {
            if !a.nan() {
                lemma_product_monotone(a, a, e);
            }
            if !b.nan() {
                lemma_product_monotone(b, b, e);
            }
        }
    }
    if at_most(x, y) {
        lemma_held_monotone(state, x, y);
    }
}

proof fn lemma_gap_ordered(a: Binary64, b: Binary64, c: Binary64)
    requires
        at_most(a, b),
        c.finite(),
    ensures
        at_most(difference(a, c), difference(b, c)),
{
    lemma_with_sign(!c.negative(), c.magnitude());
    lemma_sum_monotone(a, b, opposite(c));
}

/// The time between two spans rounds to a finite number.
proof fn lemma_gap_finite(frame: nat, target: nat)
    requires
        frame <= MAX_NANOS,
        target <= MAX_NANOS,
    ensures
        difference(integer(frame as int), integer(target as int)).finite(),
{
    let a = integer(frame as int);
    let b = integer(target as int);
    lemma_long_span_finite(frame);
    lemma_long_span_finite(target);
    lemma_with_sign(!b.negative(), b.magnitude());
    lemma_sum_order(a, opposite(b));
    lemma_integer_exact(0);
    lemma_order_is_value(a, a);
    lemma_order_is_value(b, b);
    lemma_nearest_signed_monotone(a.units() - b.units(), a.units(), 1);
    lemma_nearest_signed_monotone(-b.units(), a.units() - b.units(), 1);
    lemma_nearest_exact(a.magnitude());
    lemma_nearest_exact(b.magnitude());
}

/// A factor from zero up keeps the order of two numbers above zero.
proof fn lemma_scaled_ordered(a: Binary64, b: Binary64, factor: Binary64)
    requires
        at_most(a, b),
        a.order() > 0,
        b.finite(),
        factor.finite(),
        factor.order() >= 0,
    ensures
        at_most(product(a, factor), product(b, factor)),
{
    if factor.negative() {
        lemma_product_monotone(factor, factor, a);
        lemma_product_monotone(factor, factor, b);
        lemma_product_commutes(a, factor);
        lemma_product_commutes(b, factor);
    } else {
        lemma_product_monotone(a, b, factor);
    }
}

/// A span of time, in nanoseconds, rounds to a finite number.
proof fn lemma_long_span_finite(span: nat)
    requires
        span <= MAX_NANOS,
    ensures
        integer(span as int).finite(),
        !integer(span as int).negative(),
{
    let h: nat = 0x10_0000_0000_0000;
    let magnitude = 1119 * h;
    let one = one_in_units();
    lemma_pow2_pos(1074);
    lemma2_to64();
    lemma2_to64_rest();
    lemma_fundamental_div_mod_converse(magnitude as int, h as int, 1119, 0);
    lemma_pow2_adds(44, 1074);
    assert(0 <= span * one <= h * (pow2(44) * one)) by (nonlinear_arith)
        requires
            span <= 18_446_744_073_709_551_615_999_999_999,
            h == 0x10_0000_0000_0000,
            pow2(44) == 0x1000_0000_0000,
    ;
    lemma_nearest_at_most(span * one, 1, magnitude);
    lemma_with_sign(false, nearest(span * one, 1));
}

/// A factor from zero up keeps the side of zero that a number is on.
proof fn lemma_sign_of_product(a: Binary64, b: Binary64)
    requires
        !a.nan(),
        !b.negative(),
    ensures
        product(a, b).nan() || {
            &&& a.order() >= 0 ==> product(a, b).order() >= 0
            &&& a.order() <= 0 ==> product(a, b).order() <= 0
        },
{
    if a.finite() && b.finite() {
        lemma_product_monotone(a, a, b);
    }
}

/// Where the temperature asks for an offset, the target frame rate stays from zero to itself.
pub proof fn lemma_thermal_target_bounded(target_fps: u32, offset: Binary64)
    requires
        !offset.nan(),
    ensures
        at_most(integer(0), thermal_target(target_fps, offset)),
        at_most(thermal_target(target_fps, offset), integer(target_fps as int)),
{
    let target = integer(target_fps as int);
    lemma_integer_monotone(0, target_fps as int);
    lemma_integer_finite(target_fps as int);
    if offset.finite() {
        lemma_sum_order(target, offset);
    }
}

/// The offset of the target frame rate stays from -3 to 0.
pub proof fn lemma_offset_bounded(state: ControllerState, util: Binary64, now: Moment)
    requires
        at_most(opposite(integer(3)), state.target_fps_offset),
        at_most(state.target_fps_offset, integer(0)),
    ensures
        at_most(opposite(integer(3)), next_offset(state, util, now)),
        at_most(next_offset(state, util, now), integer(0)),
{
    let offset = state.target_fps_offset;
    let tenth = ratio(1, 10);
    lemma_integer_exact(0);
    lemma_integer_exact(1);
    lemma_integer_exact(3);
    lemma_integer_exact(10);
    lemma_integer_monotone(0, 3);
    lemma_integer_monotone(0, 0);
    lemma_integer_monotone(1, 10);
    lemma_order_is_value(integer(0), integer(10));
    lemma_pow2_pos(1074);
    lemma_with_sign(true, integer(3).magnitude());
    lemma_quotient_at_most_one(integer(1), integer(10));
    lemma_with_sign(!tenth.negative(), tenth.magnitude());
    lemma_sum_order(offset, tenth);
    lemma_sum_order(offset, opposite(tenth));
}

/// What a step finds of the frame rate depends on the margin that holds after the verdict
/// before. Between the two margins the verdict stays as it was.
pub proof fn lemma_fps_ok_hysteresis(
    buffer: Buffer,
    margin: MarginFps,
    state: ControllerState,
    target_fps: u32,
    input: ControlInput,
)
    ensures
        ({
            let params = state.params;
            let fps = buffer.frametime_state.current_fps_long;
            let target = thermal_target(target_fps, input.target_fps_offset_thermal);
            let step = control_step(buffer, margin, state, target_fps, input);
            let after = state_after(state, step, input.now);
            &&& after.was_fps_ok == (if state.was_fps_ok {
                at_most(difference(target, params.fps_ok_margin), fps)
            } else {
                at_most(difference(target, params.fps_ok_recover_margin), fps)
            })
            &&& at_most(difference(target, params.fps_ok_margin), fps) && less(
                fps,
                difference(target, params.fps_ok_recover_margin),
            ) ==> after.was_fps_ok == state.was_fps_ok
        }),
{
}

/// With the default parameters, a target that was met is missed 5 frames per second below, and
/// one that was missed is met again 2 below.
pub proof fn lemma_default_hysteresis(
    buffer: Buffer,
    margin: MarginFps,
    state: ControllerState,
    target_fps: u32,
    input: ControlInput,
)
    requires
        state.params == default_params(),
    ensures
        ({
            let fps = buffer.frametime_state.current_fps_long;
            let target = thermal_target(target_fps, input.target_fps_offset_thermal);
            let step = control_step(buffer, margin, state, target_fps, input);
            state_after(state, step, input.now).was_fps_ok == at_most(
                difference(
                    target,
                    integer(
                        if state.was_fps_ok {
                            5
                        } else {
                            2
                        },
                    ),
                ),
                fps,
            )
        }),
{
}

/// A control mode is kept for the residency time: a step that comes sooner after the last
/// switch keeps both the mode and the memory of that switch.
pub proof fn lemma_mode_residency(
    buffer: Buffer,
    margin: MarginFps,
    state: ControllerState,
    target_fps: u32,
    input: ControlInput,
)
    requires
        elapsed(state.last_mode_switch, input.now) < state.params.mode_residency_ms * MILLISECOND,
    ensures
        ({
            let step = control_step(buffer, margin, state, target_fps, input);
            let after = state_after(state, step, input.now);
            &&& after.last_control_mode == state.last_control_mode
            &&& after.last_mode_switch == state.last_mode_switch
            &&& after.params == state.params
        }),
{
}

/// A step that changes the control mode starts the residency time anew, so that the mode can
/// change back only once that time is over.
pub proof fn lemma_switch_restarts_residency(
    buffer: Buffer,
    margin: MarginFps,
    state: ControllerState,
    target_fps: u32,
    input: ControlInput,
    later: Moment,
)
    requires
        control_step(buffer, margin, state, target_fps, input).follow_demand
            != state.last_control_mode,
        elapsed(input.now, later) < state.params.mode_residency_ms * MILLISECOND,
    ensures
        ({
            let step = control_step(buffer, margin, state, target_fps, input);
            let after = state_after(state, step, input.now);
            forall|want: bool| #[trigger] next_mode(after, want, later) == step.follow_demand
        }),
{
}

/// What a step works on: a buffer, the margin and the target frame rate, and the input.
pub struct StepInput {
    pub buffer: Buffer,
    pub margin: MarginFps,
    pub target_fps: u32,
    pub input: ControlInput,
}

/// The controller after one step.
#[verifier::opaque]
pub open spec fn stepped(state: ControllerState, s: StepInput) -> ControllerState {
    state_after(
        state,
        control_step(s.buffer, s.margin, state, s.target_fps, s.input),
        s.input.now,
    )
}

/// The controller after the first `n` of some steps.
pub open spec fn after_steps(
    state: ControllerState,
    steps: Seq<StepInput>,
    n: nat,
) -> ControllerState
    decreases n,
{
    if n == 0 {
        state
    } else {
        stepped(after_steps(state, steps, (n - 1) as nat), steps[n - 1])
    }
}

/// Step `i` of some steps changes the control mode.
pub open spec fn mode_changes(state: ControllerState, steps: Seq<StepInput>, i: int) -> bool {
    after_steps(state, steps, (i + 1) as nat).last_control_mode != after_steps(
        state,
        steps,
        i as nat,
    ).last_control_mode
}

/// A step takes the mode that the frames ask for where it is that already or the residency time
/// is over, and keeps the mode otherwise. The last switch is now where the mode changes, and
/// stays otherwise.
pub proof fn lemma_mode_after_step(state: ControllerState, s: StepInput)
    ensures
        ({
            let step = control_step(s.buffer, s.margin, state, s.target_fps, s.input);
            let after = stepped(state, s);
            let want = step.frame <= SECOND && after.was_fps_ok;
            let kept = elapsed(state.last_mode_switch, s.input.now);
            &&& after.last_control_mode == (if want == state.last_control_mode || kept
                >= state.params.mode_residency_ms * MILLISECOND {
                want
            } else {
                state.last_control_mode
            })
            &&& after.last_mode_switch == (if after.last_control_mode != state.last_control_mode {
                s.input.now
            } else {
                state.last_mode_switch
            })
            &&& after.params == state.params
        }),
{
    reveal(stepped);
}

/// Over any steps, two changes of the control mode that follow each other are at least the
/// residency time apart.
pub proof fn lemma_mode_changes_apart(
    state: ControllerState,
    steps: Seq<StepInput>,
    i: int,
    j: int,
)
    requires
        0 <= i < j < steps.len(),
        mode_changes(state, steps, i),
        mode_changes(state, steps, j),
        forall|k: int| i < k < j ==> !#[trigger] mode_changes(state, steps, k),
    ensures
        elapsed(steps[i].input.now, steps[j].input.now) >= state.params.mode_residency_ms
            * MILLISECOND,
{
    lemma_steps_keep_params(state, steps, j as nat);
    lemma_last_switch_kept(state, steps, i, j);
    lemma_mode_after_step(after_steps(state, steps, j as nat), steps[j]);
}

proof fn lemma_steps_keep_params(state: ControllerState, steps: Seq<StepInput>, n: nat)
    ensures
        after_steps(state, steps, n).params == state.params,
    decreases n,
{
    if n > 0 {
        lemma_steps_keep_params(state, steps, (n - 1) as nat);
        lemma_mode_after_step(after_steps(state, steps, (n - 1) as nat), steps[n - 1]);
    }
}

proof fn lemma_last_switch_kept(state: ControllerState, steps: Seq<StepInput>, i: int, j: int)
    requires
        0 <= i < j < steps.len(),
        mode_changes(state, steps, i),
        forall|k: int| i < k < j ==> !#[trigger] mode_changes(state, steps, k),
    ensures
        after_steps(state, steps, j as nat).last_mode_switch == steps[i].input.now,
    decreases j,
{
    lemma_mode_after_step(after_steps(state, steps, (j - 1) as nat), steps[j - 1]);
    if j > i + 1 {
        lemma_last_switch_kept(state, steps, i, j - 1);
        assert(!mode_changes(state, steps, j - 1));
    }
}

/// Where the residency time is over, the mode is the one that the frames ask for: the load
/// demand is followed if and only if the newest frame came in time and the frame rate meets
/// its target. Otherwise the frames come first, and are answered in proportion.
pub proof fn lemma_mode_follows_frames(
    buffer: Buffer,
    margin: MarginFps,
    state: ControllerState,
    target_fps: u32,
    input: ControlInput,
)
    requires
        elapsed(state.last_mode_switch, input.now) >= state.params.mode_residency_ms * MILLISECOND,
    ensures
        ({
            let step = control_step(buffer, margin, state, target_fps, input);
            &&& step.follow_demand == (step.frame <= SECOND && step.fps_ok)
            &&& !step.follow_demand ==> step.control == step.raw
        }),
{
}

/// While the demand is followed and lies between its two marks, the frequency stays.
pub proof fn lemma_demand_in_range_holds(state: ControllerState, demand: Binary64, raw: int)
    requires
        at_most(state.params.demand_low, demand),
        at_most(demand, state.params.demand_high),
    ensures
        chosen_control(state, true, demand, raw) == 0,
{
}

/// While the demand is followed and is above its high mark, the frequency is raised by no more
/// than the conservative step, and by no more than the frames ask for.
pub proof fn lemma_demand_high_is_conservative(state: ControllerState, demand: Binary64, raw: int)
    requires
        at_most(state.params.demand_low, state.params.demand_high),
        less(state.params.demand_high, demand),
    ensures
        chosen_control(state, true, demand, raw) <= step_up(state),
        chosen_control(state, true, demand, raw) <= raw,
{
}

/// The share by which the demand falls short of its low mark is from zero to one.
proof fn lemma_deficit_bounded(params: ControllerParams, demand: Binary64)
    requires
        params.demand_low.finite(),
        params.demand_low.order() > 0,
        at_most(integer(0), demand),
        at_most(demand, params.demand_low),
    ensures
        deficit(params, demand).finite(),
        !deficit(params, demand).negative(),
        at_most(deficit(params, demand), integer(1)),
{
    let low = params.demand_low;
    let short = difference(low, demand);
    let zero = integer(0);
    lemma_integer_exact(0);
    lemma_order_is_value(zero, low);
    lemma_order_is_value(demand, low);
    lemma_with_sign(!demand.negative(), demand.magnitude());
    lemma_sum_order(low, opposite(demand));
    lemma_nearest_signed_monotone(0, low.units() - demand.units(), 1);
    lemma_nearest_signed_monotone(low.units() - demand.units(), low.units(), 1);
    lemma_nearest_exact(low.magnitude());
    assert(at_most(short, low));
    assert(!short.negative());
    lemma_quotient_at_most_one(short, low);
}

/// The step down is as long as a share of the highest frequency: `step_down` of a demand is the
/// whole part of the share that `step_share` gives.
pub open spec fn step_share(params: ControllerParams, demand: Binary64) -> Binary64 {
    sum(params.demand_step_base, product(deficit(params, demand), params.demand_step_scale))
}

proof fn lemma_step_share_bounded(params: ControllerParams, demand: Binary64)
    requires
        sound(params),
        at_most(integer(0), demand),
        at_most(demand, params.demand_low),
    ensures
        step_share(params, demand).finite(),
        at_most(params.demand_step_base, step_share(params, demand)),
        at_most(
            step_share(params, demand),
            sum(params.demand_step_base, params.demand_step_scale),
        ),
{
    let base = params.demand_step_base;
    let scale = params.demand_step_scale;
    let d = deficit(params, demand);
    let extra = product(d, scale);
    lemma_deficit_bounded(params, demand);
    lemma_product_commutes(d, scale);
    lemma_product_shrinks(scale, d);
    lemma_order_is_value(extra, scale);
    lemma_order_is_value(integer(0), extra);
    lemma_sum_order(base, extra);
    lemma_sum_order(base, scale);
    lemma_nearest_signed_monotone(base.units(), base.units() + extra.units(), 1);
    lemma_nearest_signed_monotone(base.units() + extra.units(), base.units() + scale.units(), 1);
    lemma_order_is_value(base, base);
    lemma_nearest_exact(base.magnitude());
}

/// A step down for a low demand is from the base share to the base and scale shares, together,
/// of the highest frequency.
pub proof fn lemma_step_down_bounded(state: ControllerState, demand: Binary64)
    requires
        sound(state.params),
        state.max_freq >= 0,
        at_most(integer(0), demand),
        less(demand, state.params.demand_low),
    ensures
        ({
            let max = integer(state.max_freq as int);
            let base = state.params.demand_step_base;
            let scale = state.params.demand_step_scale;
            &&& whole_part(product(max, base)) <= step_down(state, demand)
            &&& step_down(state, demand) <= whole_part(product(max, sum(base, scale)))
            &&& 0 <= step_down(state, demand)
        }),
        forall|raw: int| #[trigger]
            chosen_control(state, true, demand, raw) == -step_down(state, demand),
{
    let max = integer(state.max_freq as int);
    let base = state.params.demand_step_base;
    let most = sum(base, state.params.demand_step_scale);
    let share = step_share(state.params, demand);
    lemma_integer_finite(state.max_freq as int);
    lemma_step_share_bounded(state.params, demand);
    lemma_product_monotone(base, share, max);
    lemma_product_monotone(share, most, max);
    lemma_product_commutes(max, base);
    lemma_product_commutes(max, share);
    lemma_product_commutes(max, most);
    lemma_whole_part_monotone(product(max, base), product(max, share));
    lemma_whole_part_monotone(product(max, share), product(max, most));
}

/// The lower the demand, the longer the step down.
pub proof fn lemma_step_down_monotone(state: ControllerState, lower: Binary64, higher: Binary64)
    requires
        sound(state.params),
        state.max_freq >= 0,
        at_most(integer(0), lower),
        at_most(lower, higher),
        at_most(higher, state.params.demand_low),
    ensures
        step_down(state, higher) <= step_down(state, lower),
{
    let params = state.params;
    let low = params.demand_low;
    let max = integer(state.max_freq as int);
    let short = difference(low, lower);
    let shorter = difference(low, higher);
    lemma_integer_exact(0);
    lemma_integer_finite(state.max_freq as int);
    lemma_difference_antitone(low, lower, higher);
    lemma_shortfall_finite(low, lower);
    lemma_shortfall_finite(low, higher);
    lemma_quotient_monotone(shorter, short, low);
    lemma_deficit_bounded(params, lower);
    lemma_deficit_bounded(params, higher);
    lemma_product_monotone(
        deficit(params, higher),
        deficit(params, lower),
        params.demand_step_scale,
    );
    let a = product(deficit(params, higher), params.demand_step_scale);
    let b = product(deficit(params, lower), params.demand_step_scale);
    lemma_sum_monotone(a, b, params.demand_step_base);
    lemma_sum_commutes(a, params.demand_step_base);
    lemma_sum_commutes(b, params.demand_step_base);
    lemma_step_share_bounded(params, lower);
    lemma_step_share_bounded(params, higher);
    let more = step_share(params, lower);
    let fewer = step_share(params, higher);
    lemma_product_monotone(fewer, more, max);
    lemma_product_commutes(max, fewer);
    lemma_product_commutes(max, more);
    lemma_whole_part_monotone(product(max, fewer), product(max, more));
}

proof fn lemma_shortfall_finite(low: Binary64, demand: Binary64)
    requires
        low.finite(),
        at_most(integer(0), demand),
        at_most(demand, low),
    ensures
        difference(low, demand).finite(),
{
    lemma_integer_exact(0);
    lemma_order_is_value(integer(0), demand);
    lemma_order_is_value(demand, low);
    lemma_with_sign(!demand.negative(), demand.magnitude());
    lemma_sum_order(low, opposite(demand));
    lemma_nearest_signed_monotone(0, low.units() - demand.units(), 1);
    lemma_nearest_signed_monotone(low.units() - demand.units(), low.units(), 1);
    lemma_nearest_exact(low.magnitude());
}

/// With parameters that make sense, a step is defined wherever the margin is not negative and
/// the newest frame can be measured.
pub proof fn lemma_steps_defined(
    buffer: Buffer,
    margin: MarginFps,
    state: ControllerState,
    target_fps: u32,
    input: ControlInput,
)
    requires
        sound(state.params),
        state.max_freq >= 0,
        state.params.max_step_ratio.finite(),
        !state.params.max_step_ratio.negative(),
    ensures
        control_defined(buffer, margin, state, target_fps, input) <==> !margin_of(
            margin,
            target_fps,
        ).negative() && stretches(
            newest_frame(buffer),
            measured_fps(state, margin, target_fps, input),
        ),
{
    let m = max_step(state);
    let demand = held_demand(input);
    let max = integer(state.max_freq as int);
    lemma_integer_finite(state.max_freq as int);
    lemma_integer_monotone(0, state.max_freq as int);
    lemma_product_monotone(max, max, state.params.max_step_ratio);
    lemma_with_sign(!m.negative(), m.magnitude());
    lemma_integer_monotone(0, 1);
    lemma_integer_monotone(0, 0);
    if less(demand, state.params.demand_low) {
        lemma_step_down_bounded(state, demand);
    }
}

/// A demand acts as the one that it is held to, from 0 to 1.
pub proof fn lemma_demand_is_held(
    buffer: Buffer,
    margin: MarginFps,
    state: ControllerState,
    target_fps: u32,
    input: ControlInput,
)
    ensures
        ({
            let held = ControlInput { demand: held_demand(input), ..input };
            &&& control_step(buffer, margin, state, target_fps, held) == control_step(
                buffer,
                margin,
                state,
                target_fps,
                input,
            )
            &&& control_defined(buffer, margin, state, target_fps, held) == control_defined(
                buffer,
                margin,
                state,
                target_fps,
                input,
            )
        }),
{
    let held = ControlInput { demand: held_demand(input), ..input };
    lemma_integer_monotone(0, 1);
    assert(held_demand(held) == held_demand(input));
    assert(measured_fps(state, margin, target_fps, held) == measured_fps(
        state,
        margin,
        target_fps,
        input,
    ));
}

/// Whether a game counts as janked depends on its frame rate, its target and the temperature
/// alone: neither the demand, the margin nor the state of the controller plays a part.
pub proof fn lemma_jank_alike(
    buffer: Buffer,
    target_fps: u32,
    margin: MarginFps,
    state: ControllerState,
    input: ControlInput,
    other_margin: MarginFps,
    other_state: ControllerState,
    other_input: ControlInput,
)
    requires
        input.target_fps_offset_thermal == other_input.target_fps_offset_thermal,
    ensures
        control_step(buffer, margin, state, target_fps, input).janked == less(
            buffer.frametime_state.current_fps_long,
            difference(thermal_target(target_fps, input.target_fps_offset_thermal), integer(2)),
        ),
        control_step(buffer, margin, state, target_fps, input).janked == control_step(
            buffer,
            other_margin,
            other_state,
            target_fps,
            other_input,
        ).janked,
{
}

/// A controller that starts on a game may follow the demand at its first step, where the
/// residency time is no more than ten seconds.
pub proof fn lemma_first_step_may_follow_demand(
    state: ControllerState,
    now: Moment,
    later: Moment,
    want: bool,
)
    requires
        state.params.mode_residency_ms <= 10_000,
        now.nanos >= i128::MIN + 10_000_000_000,
        later.nanos >= now.nanos,
    ensures
        next_mode(fresh_controller(state, now), want, later) == want,
{
}

/// The highest demand is at least zero and at least each demand that is a number, and it is one of
/// them or zero, which it is where there are none.
pub proof fn lemma_highest_demand(demands: Seq<Binary64>)
    ensures
        at_most(integer(0), highest_demand(demands)),
        highest_demand(demands) == integer(0) || demands.contains(highest_demand(demands)),
        demands.len() == 0 ==> highest_demand(demands) == integer(0),
        forall|i: int|
            0 <= i < demands.len() && !(#[trigger] demands[i]).nan() ==> at_most(
                demands[i],
                highest_demand(demands),
            ),
    decreases demands.len(),
{
    lemma_integer_monotone(0, 0);
    if demands.len() > 0 {
        let rest = demands.drop_last();
        lemma_highest_demand(rest);
        let highest = highest_demand(demands);
        if highest == demands.last() {
            assert(demands[demands.len() - 1] == highest);
        } else if rest.contains(highest) {
            let k = choose|k: int| 0 <= k < rest.len() && rest[k] == highest;
            assert(demands[k] == highest);
        }
        assert forall|i: int|
            0 <= i < demands.len() && !(#[trigger] demands[i]).nan() implies at_most(
            demands[i],
            highest_demand(demands),
        ) by {
            if i < rest.len() {
                assert(rest[i] == demands[i]);
            }
        }
    }
}

/// The highest frequency of some policies is at least each of their frequencies, and is one of
/// them.
pub proof fn lemma_highest_freq(infos: Seq<Info>)
    ensures
        highest_freq(infos) is None <==> forall|i: int|
            0 <= i < infos.len() ==> (#[trigger] infos[i]).freqs@.len() == 0,
        highest_freq(infos) matches Some(highest) ==> {
            &&& forall|i: int, k: int|
                0 <= i < infos.len() && 0 <= k < infos[i].freqs@.len()
                    ==> #[trigger] infos[i].freqs@[k] <= highest
            &&& exists|i: int|
                0 <= i < infos.len() && (#[trigger] infos[i]).freqs@.contains(highest)
        },
    decreases infos.len(),
{
    if infos.len() > 0 {
        let rest = infos.drop_last();
        let before = highest_freq(rest);
        let freqs = infos.last().freqs@;
        lemma_highest_freq(rest);
        lemma_highest_of(freqs, before);
        let all = highest_freq(infos);
        assert(infos[infos.len() - 1] == infos.last());
        assert forall|i: int| 0 <= i < rest.len() implies rest[i] == #[trigger] infos[i] by {}
        if all is None {
            assert(before is None);
            assert forall|i: int| 0 <= i < infos.len() implies (#[trigger] infos[i]).freqs@.len()
                == 0 by {
                if i < rest.len() {
                    assert(rest[i].freqs@.len() == 0);
                }
            }
        } else {
            let highest = all->0;
            assert forall|i: int, k: int|
                0 <= i < infos.len() && 0 <= k < infos[i].freqs@.len() implies (
            #[trigger] infos[i].freqs@[k]) <= highest by {
                if i < rest.len() {
                    assert(rest[i].freqs@[k] <= before->0);
                } else {
                    assert(freqs[k] <= highest);
                }
            }
            if freqs.contains(highest) {
                assert(infos[infos.len() - 1].freqs@.contains(highest));
            } else {
                let i = choose|i: int|
                    0 <= i < rest.len() && (#[trigger] rest[i]).freqs@.contains(highest);
                assert(infos[i].freqs@.contains(highest));
            }
            assert(exists|i: int|
                0 <= i < infos.len() && (#[trigger] infos[i]).freqs@.contains(highest));
            let i = choose|i: int|
                0 <= i < infos.len() && (#[trigger] infos[i]).freqs@.contains(highest);
            assert(infos[i].freqs@.len() != 0);
        }
    }
}

proof fn lemma_highest_of(freqs: Seq<isize>, before: Option<isize>)
    ensures
        highest_of(freqs, before) is None <==> freqs.len() == 0 && before is None,
        highest_of(freqs, before) matches Some(highest) ==> {
            &&& before is Some ==> before->0 <= highest
            &&& forall|k: int| 0 <= k < freqs.len() ==> #[trigger] freqs[k] <= highest
            &&& freqs.contains(highest) || before == Some(highest)
        },
    decreases freqs.len(),
{
    if freqs.len() > 0 {
        let rest = freqs.drop_last();
        lemma_highest_of(rest, before);
        let highest = highest_of(freqs, before)->0;
        assert forall|k: int| 0 <= k < freqs.len() implies #[trigger] freqs[k] <= highest by {
            if k < rest.len() {
                assert(rest[k] == freqs[k]);
            }
        }
        if highest == freqs.last() {
            assert(freqs[freqs.len() - 1] == highest);
        } else if rest.contains(highest) {
            let k = choose|k: int| 0 <= k < rest.len() && rest[k] == highest;
            assert(freqs[k] == highest);
        }
    }
}

/// Going a step towards working, and stopping, both keep to what holds of a scheduler.
pub proof fn lemma_work_needs_a_game(l: Looper, now: Moment)
    requires
        l.wf(),
    ensures
        disabled(l).0.wf(),
        l.fas_state.buffer is Some ==> enabled(l, now).0.wf(),
{
}

/// A scheduler that has stopped stays as it is when it is stopped again, and nothing is done
/// for that.
pub proof fn lemma_disabled_once(l: Looper)
    ensures
        disabled(disabled(l).0) == (disabled(l).0, Seq::<Action>::empty()),
{
}

/// What had been done for a game is undone when the work for it ends: the frequencies are given
/// back and the cleanup is undone if and only if there was work.
pub proof fn lemma_disabled_undoes(l: Looper)
    ensures
        disabled(l).0.fas_state.working_state == State::NotWorking,
        disabled(l).1.contains(Action::InitDefault) <==> l.fas_state.working_state
            == State::Working,
        disabled(l).1.contains(Action::UndoCleanup) <==> l.fas_state.working_state
            == State::Working,
        disabled(l).1.contains(Action::StopFas) <==> l.fas_state.working_state == State::Working,
{
    if l.fas_state.working_state == State::Working {
        assert(disabled(l).1[0] == Action::UndoCleanup);
        assert(disabled(l).1[1] == Action::InitDefault);
        assert(disabled(l).1[2] == Action::StopFas);
    }
}

/// A game is taken over only after the delay: a scheduler that starts on it at one moment works
/// at a later one if and only if more than the delay has passed.
pub proof fn lemma_delay_before_work(l: Looper, start: Moment, now: Moment)
    requires
        l.fas_state.working_state == State::NotWorking,
    ensures
        ({
            let waiting = enabled(l, start).0;
            let next = enabled(waiting, now).0;
            &&& waiting.fas_state.working_state == State::Waiting
            &&& next.fas_state.working_state == State::Working <==> elapsed(start, now)
                > DELAY_TIME
            &&& elapsed(start, now) <= DELAY_TIME ==> next == waiting
        }),
{
}

/// A game that is no longer among the top processes is forgotten, and the work for it ends.
pub proof fn lemma_gone_game_ends_work(l: Looper, topapp_pids: Seq<i32>, now: Moment)
    requires
        gone(l, topapp_pids),
    ensures
        retained(l, topapp_pids, now).0.fas_state.buffer is None,
        retained(l, topapp_pids, now).0.fas_state.working_state == State::NotWorking,
{
}

/// Work that has begun goes on for as long as its game is among the top processes.
pub proof fn lemma_work_goes_on(l: Looper, topapp_pids: Seq<i32>, now: Moment)
    requires
        l.wf(),
        l.fas_state.working_state == State::Working,
        !gone(l, topapp_pids),
    ensures
        retained(l, topapp_pids, now) == (l, Seq::<Action>::empty()),
{
}

/// Where no target frame rate has been noted yet, as for a game that is new or has just been
/// taken over, the current one is no change.
pub proof fn lemma_first_target_is_no_change(l: Looper)
    requires
        l.last_target_fps is None,
    ensures
        !target_changed(l),
{
}

/// The last game leaves nothing behind in the controller: whatever its state was, a game that
/// is taken over starts with the same one, but for the highest frequency, the parameters, the
/// time of the last usage sample and the verdict on the last frame.
pub proof fn lemma_games_start_alike(a: ControllerState, b: ControllerState, now: Moment)
    requires
        a.params == b.params,
        a.max_freq == b.max_freq,
        a.usage_sample_timer == b.usage_sample_timer,
        a.is_janked == b.is_janked,
    ensures
        fresh_controller(a, now) == fresh_controller(b, now),
{
}

/// While a freeform window is visible there is no work, whatever the top processes are.
pub proof fn lemma_no_work_beside_freeform(l: Looper, topapp_pids: Seq<i32>, now: Moment)
    ensures
        windows_followed(l, topapp_pids, true, now).0.fas_state.working_state
            == State::NotWorking,
{
}

/// A run of the policy that is due always has a game to run for. A change of the target frame
/// rate puts off one run only: after that run has begun, the next one is due.
pub proof fn lemma_policy_begun(before: Looper, after: Looper)
    requires
        before.wf(),
        policy_begun(before, after),
    ensures
        policy_due(before) ==> after.fas_state.buffer == before.fas_state.buffer
            && after.fas_state.buffer is Some,
        before.fas_state.working_state == State::Working ==> policy_due(after),
{
}

} // verus!
