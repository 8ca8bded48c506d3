//! The frequency controller.
//!
//! A frame that takes too long, or a frame rate that is off its target, is answered in
//! proportion to the time by which the newest frame missed. While frames come in time, the
//! frequency follows the load demand instead: the share of the highest frequency that the load
//! needs, whatever frequency it runs at.

use crate::binary64::{
    at_most, clamped, difference, integer, less, nanos_of_seconds, opposite, product, quotient,
    ratio, sum, whole_part, Binary64, MAX_NANOS,
};
use crate::buffer::{total_time, Buffer};
use crate::config::{Config, MarginFps, Mode};
use crate::ordering::{lemma_integer_exact, lemma_integer_monotone, lemma_with_sign};
use crate::params::ControllerParams;
use crate::text::{decimal, decimal_text};
use crate::timing::{elapsed, stretch, stretched_seconds, stretches, Moment, MILLISECOND, SECOND};
use likely_stable::unlikely;
use vstd::prelude::*;

verus! {

/// What the controller remembers from one step to the next.
#[derive(Debug, Clone, Copy)]
pub struct ControllerState {
    pub params: ControllerParams,
    /// What is added to the target frame rate, from -3 to 0.
    pub target_fps_offset: Binary64,
    pub usage_sample_timer: Moment,
    /// Whether the last step found the frame rate well below its target.
    pub is_janked: bool,
    /// The highest frequency of the device, in kHz.
    pub max_freq: isize,
    /// Whether the last step found the frame rate to meet its target.
    pub was_fps_ok: bool,
    /// Whether the last step followed the load demand.
    pub last_control_mode: bool,
    pub last_mode_switch: Moment,
}

/// What a step works on besides the buffer and the configuration.
#[derive(Debug, Clone, Copy)]
pub struct ControlInput {
    /// What the temperature asks to be added to the target frame rate.
    pub target_fps_offset_thermal: Binary64,
    /// The load demand rate.
    pub demand: Binary64,
    /// The highest usage of a core, which is only looked at where that is due.
    pub util_max: Binary64,
    pub now: Moment,
}

/// The number of frames that a step needs.
pub const FRAMES_NEEDED: usize = 60;

/// The margin of a target frame rate: the one listed for it, or the base margin, which is for
/// 60 frames per second, in proportion.
pub open spec fn margin_of(margin: MarginFps, target_fps: u32) -> Binary64 {
    let scale = quotient(integer(target_fps as int), integer(60));
    match margin {
        MarginFps::BaseOnly(base) => product(scale, base),
        MarginFps::Advanced { base, overrides } => {
            let key = decimal(target_fps as nat);
            if overrides@.contains_key(key) {
                overrides@[key]
            } else {
                product(scale, base)
            }
        },
    }
}

/// A target frame rate with the offset that the temperature asks for, never raised by it.
pub open spec fn thermal_target(target_fps: u32, offset: Binary64) -> Binary64 {
    clamped(
        sum(integer(target_fps as int), offset),
        integer(0),
        integer(target_fps as int),
    )
}

/// Whether the usage of the cores is to be looked at.
pub open spec fn usage_sample_due(state: ControllerState, now: Moment) -> bool {
    elapsed(state.usage_sample_timer, now) >= SECOND
}

/// The offset of the target frame rate: none while the cores idle, lowered by a tenth while
/// their usage is low, raised by a tenth while it is high, and held from -3 to 0.
pub open spec fn next_offset(state: ControllerState, util: Binary64, now: Moment) -> Binary64 {
    let offset = state.target_fps_offset;
    let tenth = ratio(1, 10);
    let moved = if !usage_sample_due(state, now) {
        offset
    } else if at_most(util, tenth) {
        integer(0)
    } else if at_most(util, ratio(55, 100)) {
        difference(offset, tenth)
    } else if at_most(ratio(65, 100), util) {
        sum(offset, tenth)
    } else {
        offset
    };
    clamped(moved, opposite(integer(3)), integer(0))
}

/// The time that the newest frame takes: the time since it, where that is counted and is
/// longer.
pub open spec fn newest_frame(buffer: Buffer) -> nat {
    let frames = buffer.frametime_state.frametimes@;
    let last: nat = if frames.len() > 0 {
        frames[0] as nat
    } else {
        0
    };
    let additional = buffer.frametime_state.additional_frametime as nat;
    if additional > last {
        additional
    } else {
        last
    }
}

/// The newest frame times the frame rate: a second where the frame came just in time.
pub open spec fn normalized_frame(buffer: Buffer, fps: Binary64) -> nat {
    nanos_of_seconds(stretched_seconds(newest_frame(buffer), fps))
}

/// The most that a step may change the frequency by.
pub open spec fn max_step(state: ControllerState) -> Binary64 {
    product(integer(state.max_freq as int), state.params.max_step_ratio)
}

/// The time, in nanoseconds, by which a frame missed its target, times the proportional gain.
pub open spec fn frame_error(state: ControllerState, frame: nat, target: nat) -> Binary64 {
    product(difference(integer(frame as int), integer(target as int)), state.params.kp)
}

/// The answer to a frame in proportion to the time by which it missed. A step up is weakened
/// while the demand is low, since then the frame did not wait for the processor.
pub open spec fn proportional_answer(
    state: ControllerState,
    frame: nat,
    target: nat,
    demand: Binary64,
) -> Binary64 {
    let error = frame_error(state, frame, target);
    if less(integer(0), error) {
        product(
            error,
            clamped(
                quotient(demand, state.params.util_decay_threshold),
                integer(0),
                integer(1),
            ),
        )
    } else {
        error
    }
}

/// The proportional answer, held to the greatest step, in kHz.
pub open spec fn raw_control(
    state: ControllerState,
    frame: nat,
    target: nat,
    demand: Binary64,
) -> int {
    whole_part(
        clamped(
            proportional_answer(state, frame, target, demand),
            opposite(max_step(state)),
            max_step(state),
        ),
    )
}

/// Whether the frame rate meets its target. A target that was met is missed only by the wider
/// margin; one that was missed is met again only within the narrower one.
pub open spec fn fps_ok(state: ControllerState, current_fps: Binary64, target: Binary64) -> bool {
    let margin = if state.was_fps_ok {
        state.params.fps_ok_margin
    } else {
        state.params.fps_ok_recover_margin
    };
    at_most(difference(target, margin), current_fps)
}

/// Whether the control mode may be `want` now: it is that already, or the mode has been kept
/// for long enough.
pub open spec fn may_switch(state: ControllerState, want: bool, now: Moment) -> bool {
    want == state.last_control_mode || elapsed(state.last_mode_switch, now)
        >= state.params.mode_residency_ms * MILLISECOND
}

/// The control mode after a step that would have it be `want`.
pub open spec fn next_mode(state: ControllerState, want: bool, now: Moment) -> bool {
    if may_switch(state, want, now) {
        want
    } else {
        state.last_control_mode
    }
}

/// How far the demand falls short of the low mark, as a share of it.
pub open spec fn deficit(params: ControllerParams, demand: Binary64) -> Binary64 {
    quotient(difference(params.demand_low, demand), params.demand_low)
}

/// The step down for a low demand, in kHz: the lower the demand, the longer the step.
pub open spec fn step_down(state: ControllerState, demand: Binary64) -> int {
    whole_part(
        product(
            integer(state.max_freq as int),
            sum(
                state.params.demand_step_base,
                product(deficit(state.params, demand), state.params.demand_step_scale),
            ),
        ),
    )
}

/// The longest step up for a high demand, in kHz.
pub open spec fn step_up(state: ControllerState) -> int {
    whole_part(product(integer(state.max_freq as int), state.params.demand_up_max))
}

/// The change of the frequency, in kHz.
pub open spec fn chosen_control(
    state: ControllerState,
    follow_demand: bool,
    demand: Binary64,
    raw: int,
) -> int {
    if !follow_demand {
        raw
    } else if less(demand, state.params.demand_low) {
        -step_down(state, demand)
    } else if less(state.params.demand_high, demand) {
        if step_up(state) < raw {
            step_up(state)
        } else {
            raw
        }
    } else {
        0
    }
}

/// What one step finds and decides.
pub struct ControlStep {
    /// The target frame rate after the temperature has had its say.
    pub target: Binary64,
    pub margin: Binary64,
    pub offset: Binary64,
    /// The newest frame, in nanoseconds of a second that it should take.
    pub frame: nat,
    pub fps_ok: bool,
    pub follow_demand: bool,
    pub raw: int,
    pub control: int,
    pub janked: bool,
}

/// The demand held from 0 to 1.
pub open spec fn held_demand(input: ControlInput) -> Binary64 {
    clamped(input.demand, integer(0), integer(1))
}

/// The frame rate that the newest frame is measured against.
pub open spec fn measured_fps(
    state: ControllerState,
    margin: MarginFps,
    target_fps: u32,
    input: ControlInput,
) -> Binary64 {
    difference(
        sum(
            thermal_target(target_fps, input.target_fps_offset_thermal),
            next_offset(state, input.util_max, input.now),
        ),
        margin_of(margin, target_fps),
    )
}

/// One step of the controller.
pub open spec fn control_step(
    buffer: Buffer,
    margin: MarginFps,
    state: ControllerState,
    target_fps: u32,
    input: ControlInput,
) -> ControlStep {
    let target = thermal_target(target_fps, input.target_fps_offset_thermal);
    let frame = normalized_frame(buffer, measured_fps(state, margin, target_fps, input));
    let current_fps = buffer.frametime_state.current_fps_long;
    let ok = fps_ok(state, current_fps, target);
    let follow_demand = next_mode(state, frame <= SECOND && ok, input.now);
    let raw = raw_control(state, frame, SECOND as nat, held_demand(input));
    ControlStep {
        target,
        margin: margin_of(margin, target_fps),
        offset: next_offset(state, input.util_max, input.now),
        frame,
        fps_ok: ok,
        follow_demand,
        raw,
        control: chosen_control(state, follow_demand, held_demand(input), raw),
        janked: less(current_fps, difference(target, integer(2))),
    }
}

/// A step is defined: the margin is not negative, the newest frame can be measured, the
/// greatest step is not negative, and a step down, where one is taken, can be negated.
pub open spec fn control_defined(
    buffer: Buffer,
    margin: MarginFps,
    state: ControllerState,
    target_fps: u32,
    input: ControlInput,
) -> bool {
    &&& !margin_of(margin, target_fps).negative()
    &&& stretches(newest_frame(buffer), measured_fps(state, margin, target_fps, input))
    &&& at_most(opposite(max_step(state)), max_step(state))
    &&& control_step(buffer, margin, state, target_fps, input).follow_demand && less(
        held_demand(input),
        state.params.demand_low,
    ) ==> step_down(state, held_demand(input)) > isize::MIN
}

/// The state after a step.
pub open spec fn state_after(
    state: ControllerState,
    step: ControlStep,
    now: Moment,
) -> ControllerState {
    ControllerState {
        target_fps_offset: step.offset,
        usage_sample_timer: if usage_sample_due(state, now) {
            now
        } else {
            state.usage_sample_timer
        },
        was_fps_ok: step.fps_ok,
        last_control_mode: step.follow_demand,
        last_mode_switch: if step.follow_demand != state.last_control_mode {
            now
        } else {
            state.last_mode_switch
        },
        ..state
    }
}

impl ControllerState {
    /// Whether the next step looks at the usage of the cores.
    pub fn usage_due(&self, now: Moment) -> (r: bool)
        ensures
            r == usage_sample_due(*self, now),
    {
        self.usage_sample_timer.elapsed(now) >= SECOND
    }
}

/// The margin of a target frame rate.
fn margin_fps(margin: &MarginFps, target_fps: u32) -> (r: Binary64)
    ensures
        r == margin_of(*margin, target_fps),
{
    let scale = Binary64::from_u64(target_fps as u64).div(Binary64::from_u64(60));
    match margin {
        MarginFps::BaseOnly(base) => scale.mul(*base),
        MarginFps::Advanced { base, overrides } => {
            let key = decimal_text(target_fps);
            match overrides.get(key.as_str()) {
                Some(fps) => *fps,
                None => scale.mul(*base),
            }
        },
    }
}

/// A target frame rate with the offset that the temperature asks for.
fn hold_target(target_fps: u32, offset: Binary64) -> (r: Binary64)
    ensures
        r == thermal_target(target_fps, offset),
{
    let target = Binary64::from_u64(target_fps as u64);
    proof {
        lemma_integer_monotone(0, target_fps as int);
    }
    target.add(offset).clamp(Binary64::from_u64(0), target)
}

/// The target frame rate with the offset that the usage of the cores asks for, which is
/// brought up to date.
fn adjust_target_fps(
    target_fps: Binary64,
    state: &mut ControllerState,
    util: Binary64,
    now: Moment,
) -> (r: Binary64)
    ensures
        r == sum(target_fps, next_offset(*old(state), util, now)),
        *final(state) == (ControllerState {
            target_fps_offset: next_offset(*old(state), util, now),
            usage_sample_timer: if usage_sample_due(*old(state), now) {
                now
            } else {
                old(state).usage_sample_timer
            },
            ..*old(state)
        }),
{
    if state.usage_due(now) {
        state.usage_sample_timer = now;
        let tenth = Binary64::ratio(1, 10);
        if util.le(tenth) {
            state.target_fps_offset = Binary64::from_u64(0);
        } else if util.le(Binary64::ratio(55, 100)) {
            state.target_fps_offset = state.target_fps_offset.sub(tenth);
        } else if Binary64::ratio(65, 100).le(util) {
            state.target_fps_offset = state.target_fps_offset.add(tenth);
        }
    }
    let low = Binary64::from_u64(3).neg();
    proof {
        lemma_integer_exact(3);
        lemma_integer_monotone(0, 3);
        lemma_integer_monotone(0, 0);
        lemma_with_sign(true, integer(3).magnitude());
    }
    state.target_fps_offset = state.target_fps_offset.clamp(low, Binary64::from_u64(0));
    target_fps.add(state.target_fps_offset)
}

/// The time that the newest frame takes.
fn get_last_frame(buffer: &Buffer) -> (r: u128)
    requires
        buffer.wf(),
    ensures
        r == newest_frame(*buffer),
        r <= MAX_NANOS,
{
    let last: u128 = if buffer.frametime_state.frametimes.len() > 0 {
        proof {
            lemma_frame_in_total(
                buffer.frametime_state.frametimes@,
                buffer.frametime_state.frametimes@.len(),
            );
        }
        buffer.frametime_state.frametimes[0]
    } else {
        0
    };
    let additional: u128 = buffer.frametime_state.additional_frametime;
    if additional > last {
        additional
    } else {
        last
    }
}

proof fn lemma_frame_in_total(frames: Seq<u128>, n: nat)
    requires
        0 < n <= frames.len(),
    ensures
        frames[0] <= total_time(frames, n),
    decreases n,
{
    if n > 1 {
        lemma_frame_in_total(frames, (n - 1) as nat);
    } else {
        assert(total_time(frames, 0) == 0);
    }
}

/// The newest frame times the frame rate, where that is a span of time.
fn get_normalized_last_frame(buffer: &Buffer, target_fps: Binary64) -> (r: Option<u128>)
    requires
        buffer.wf(),
    ensures
        r is Some <==> stretches(newest_frame(*buffer), target_fps),
        r matches Some(n) ==> n == normalized_frame(*buffer, target_fps) && n <= MAX_NANOS,
{
    stretch(get_last_frame(buffer), target_fps)
}

/// The proportional answer to a frame, held to the greatest step.
fn calculate_control_inner(
    state: &ControllerState,
    current_frametime: u128,
    target_frametime: u128,
    demand: Binary64,
) -> (r: isize)
    requires
        current_frametime <= MAX_NANOS,
        target_frametime <= MAX_NANOS,
        at_most(opposite(max_step(*state)), max_step(*state)),
    ensures
        r == raw_control(*state, current_frametime as nat, target_frametime as nat, demand),
{
    let zero = Binary64::from_u64(0);
    let one = Binary64::from_u64(1);
    let error = Binary64::from_nanos(current_frametime).sub(Binary64::from_nanos(target_frametime));
    let mut control = error.mul(state.params.kp);
    if zero.lt(control) {
        proof {
            lemma_integer_monotone(0, 1);
        }
        let util_factor = demand.div(state.params.util_decay_threshold).clamp(zero, one);
        control = control.mul(util_factor);
    }
    let max_step = Binary64::from_isize(state.max_freq).mul(state.params.max_step_ratio);
    control.clamp(max_step.neg(), max_step).to_isize()
}

/// Whether the frame rate meets its target.
fn meets_target(state: &ControllerState, current_fps: Binary64, target: Binary64) -> (r: bool)
    ensures
        r == fps_ok(*state, current_fps, target),
{
    let margin = if state.was_fps_ok {
        state.params.fps_ok_margin
    } else {
        state.params.fps_ok_recover_margin
    };
    target.sub(margin).le(current_fps)
}

/// The control mode after a step that would have it be `want`.
fn choose_mode(state: &ControllerState, want: bool, now: Moment) -> (r: bool)
    ensures
        r == next_mode(*state, want, now),
{
    let residency: u128 = (state.params.mode_residency_ms as u128) * MILLISECOND;
    let can_switch = want == state.last_control_mode || state.last_mode_switch.elapsed(now)
        >= residency;
    if can_switch {
        want
    } else {
        state.last_control_mode
    }
}

/// The step down for a low demand.
fn demand_step_down(state: &ControllerState, demand: Binary64) -> (r: isize)
    ensures
        r == step_down(*state, demand),
{
    let low = state.params.demand_low;
    let deficit = low.sub(demand).div(low);
    let share = state.params.demand_step_base.add(deficit.mul(state.params.demand_step_scale));
    Binary64::from_isize(state.max_freq).mul(share).to_isize()
}

fn hold_demand(input: &ControlInput) -> (r: Binary64)
    ensures
        r == held_demand(*input),
{
    proof {
        lemma_integer_monotone(0, 1);
    }
    input.demand.clamp(Binary64::from_u64(0), Binary64::from_u64(1))
}

/// Whether a step of the controller is defined.
pub fn is_control_defined(
    buffer: &Buffer,
    config: &Config,
    mode: Mode,
    state: &ControllerState,
    target_fps: u32,
    input: &ControlInput,
) -> (r: bool)
    requires
        buffer.wf(),
    ensures
        r == control_defined(
            *buffer,
            config.inner.mode(mode).margin_fps,
            *state,
            target_fps,
            *input,
        ),
{
    let margin = margin_fps(&config.mode_config(mode).margin_fps, target_fps);
    let mut probe: ControllerState = *state;
    let target = hold_target(target_fps, input.target_fps_offset_thermal);
    let adjusted = adjust_target_fps(target, &mut probe, input.util_max, input.now).sub(margin);
    let max_step = Binary64::from_isize(state.max_freq).mul(state.params.max_step_ratio);
    if margin.to_bits() >= 0x8000_0000_0000_0000 || !max_step.neg().le(max_step) {
        return false;
    }
    match get_normalized_last_frame(buffer, adjusted) {
        None => false,
        Some(frame) => {
            let fps_ok = meets_target(state, buffer.frametime_state.current_fps_long, target);
            let demand = hold_demand(input);
            !choose_mode(state, frame <= SECOND && fps_ok, input.now) || !demand.lt(
                state.params.demand_low,
            ) || demand_step_down(state, demand) > isize::MIN
        },
    }
}

/// The change of the frequency, in kHz, and whether the frame rate is well below its target;
/// nothing while there are too few frames or there is no target.
pub fn calculate_control(
    buffer: &Buffer,
    config: &Config,
    mode: Mode,
    state: &mut ControllerState,
    input: &ControlInput,
) -> (r: Option<(isize, bool)>)
    requires
        buffer.wf(),
        buffer.frametime_state.frametimes@.len() >= FRAMES_NEEDED
            && buffer.target_fps_state.target_fps is Some ==> control_defined(
            *buffer,
            config.inner.mode(mode).margin_fps,
            *old(state),
            buffer.target_fps_state.target_fps->0,
            *input,
        ),
    ensures
        if buffer.frametime_state.frametimes@.len() < FRAMES_NEEDED
            || buffer.target_fps_state.target_fps is None {
            r is None && *final(state) == *old(state)
        } else {
            let step = control_step(
                *buffer,
                config.inner.mode(mode).margin_fps,
                *old(state),
                buffer.target_fps_state.target_fps->0,
                *input,
            );
            &&& r matches Some((control, janked)) && control == step.control && janked
                == step.janked
            &&& *final(state) == state_after(*old(state), step, input.now)
        },
{
    if unlikely(buffer.frametime_state.frametimes.len() < FRAMES_NEEDED) {
        return None;
    }
    let demand = hold_demand(input);
    let target_fps: u32 = match buffer.target_fps_state.target_fps {
        Some(target_fps) => target_fps,
        None => {
            return None;
        },
    };
    let margin = margin_fps(&config.mode_config(mode).margin_fps, target_fps);

    let target = hold_target(target_fps, input.target_fps_offset_thermal);
    let adjusted_target_fps = adjust_target_fps(target, state, input.util_max, input.now).sub(
        margin,
    );
    let adjusted_last_frame: u128 = get_normalized_last_frame(buffer, adjusted_target_fps).unwrap();

    let raw: isize = calculate_control_inner(state, adjusted_last_frame, SECOND, demand);

    let frametime_miss = adjusted_last_frame > SECOND;
    let current_fps = buffer.frametime_state.current_fps_long;
    let fps_ok = meets_target(state, current_fps, target);
    let use_demand_mode = choose_mode(state, !frametime_miss && fps_ok, input.now);
    state.was_fps_ok = fps_ok;
    if use_demand_mode != state.last_control_mode {
        state.last_mode_switch = input.now;
        state.last_control_mode = use_demand_mode;
    }
    let control: isize = if use_demand_mode {
        if demand.lt(state.params.demand_low) {
            -demand_step_down(state, demand)
        } else if state.params.demand_high.lt(demand) {
            let step: isize = Binary64::from_isize(state.max_freq).mul(
                state.params.demand_up_max,
            ).to_isize();
            if step < raw {
                step
            } else {
                raw
            }
        } else {
            0
        }
    } else {
        raw
    };

    Some((control, current_fps.lt(target.sub(Binary64::from_u64(2)))))
}

} // verus!
