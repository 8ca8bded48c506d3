//! What a step of the controller amounts to, as real numbers.

use crate::binary64::{
    at_most, clamped, difference, integer, less, one_in_units, opposite, product, quotient, ratio,
    sum, units_of, whole_part, Binary64, MAX_NANOS,
};
use crate::buffer::Buffer;
use crate::config::MarginFps;
use crate::control::{
    control_defined, control_step, frame_error, margin_of, max_step, measured_fps, newest_frame,
    next_offset, proportional_answer, state_after, step_down, step_up, thermal_target, ControlInput,
    ControllerState,
};
use crate::exactness::{
    lemma_difference_value, lemma_integer_value, lemma_nanos_value, lemma_opposite_value,
    lemma_product_value, lemma_quotient_value, lemma_seconds_value, lemma_sum_value, lemma_tiny,
    lemma_value_order, lemma_vast, lemma_whole_part_value, magnitude_of, rounding, tiny, value,
    vast, within,
};
use crate::guarantees::{lemma_offset_bounded, lemma_thermal_target_bounded};
use crate::ordering::{
    lemma_integer_exact, lemma_integer_monotone, lemma_nearest_exact, lemma_order_is_value,
    lemma_product_monotone, lemma_sum_commutes, lemma_sum_monotone, lemma_sum_order,
    lemma_with_sign,
};
use crate::rounding::lemma_half_even_monotone;
use crate::text::decimal;
use crate::tiers::lemma_whole_sum;
use crate::timing::{elapsed, in_seconds, stretches};
use vstd::arithmetic::power2::lemma_pow2_pos;
use vstd::prelude::*;

verus! {

/// A real number held between two others.
pub open spec fn held(x: real, low: real, high: real) -> real {
    if x < low {
        low
    } else if x > high {
        high
    } else {
        x
    }
}

/// Holding numbers between the same two brings them no further apart.
proof fn lemma_held_apart(x: real, y: real, low: real, high: real, d: real)
    requires
        within(x, y, d),
        low <= high,
    ensures
        within(held(x, low, high), held(y, low, high), d),
{
}

/// A finite number held between two others stands for the real number held between theirs.
proof fn lemma_clamped_value(a: Binary64, low: Binary64, high: Binary64)
    requires
        !a.nan(),
        low.finite(),
        high.finite(),
        value(low) <= value(high),
    ensures
        clamped(a, low, high).finite(),
        a.finite() ==> value(clamped(a, low, high)) == held(value(a), value(low), value(high)),
{
    lemma_value_order(a, low);
    lemma_value_order(high, a);
    lemma_value_order(low, high);
}

/// The target frame rate that the temperature allows is the target with the offset added, held
/// from zero to the target, up to rounding: a device that is too hot aims lower, and no device
/// aims higher.
pub proof fn lemma_thermal_target_value(target_fps: u32, offset: Binary64)
    requires
        offset.finite(),
        magnitude_of(value(offset)) <= vast() / 2 as real,
    ensures
        thermal_target(target_fps, offset).finite(),
        0 as real <= value(thermal_target(target_fps, offset)) <= target_fps as real,
        within(
            value(thermal_target(target_fps, offset)),
            held(target_fps as real + value(offset), 0 as real, target_fps as real),
            rounding() * target_fps as real,
        ),
{
    let n = target_fps as real;
    let t = integer(target_fps as int);
    let x = n + value(offset);
    let s = sum(t, offset);
    let r = rounding();
    lemma_tiny();
    lemma_vast();
    lemma_integer_value(target_fps as int);
    lemma_integer_value(0);
    lemma_sum_value(t, offset);
    lemma_clamped_value(s, integer(0), t);
    let y = value(s);
    let m = magnitude_of(x);
    assert(r * m >= 0 as real && r * m <= m) by (nonlinear_arith)
        requires
            r > 0 as real,
            r <= 1 as real / 1_000_000_000_000_000 as real,
            m >= 0 as real,
    ;
    assert(r * n >= 0 as real) by (nonlinear_arith)
        requires
            r > 0 as real,
            n >= 0 as real,
    ;
    if x <= 0 as real {
        assert(y <= 0 as real);
    } else if x >= n {
        lemma_value_order(t, s);
        lemma_value_order(integer(0), offset);
        lemma_integer_exact(0);
        lemma_integer_exact(target_fps as nat);
        lemma_integer_monotone(0, 0);
        lemma_sum_monotone(integer(0), offset, t);
        lemma_sum_commutes(offset, t);
        lemma_sum_commutes(integer(0), t);
        lemma_sum_value(integer(0), t);
        lemma_sum_order(integer(0), t);
        assert(sum(integer(0), t).order() == t.order()) by {
            lemma_order_is_value(integer(0), t);
            lemma_whole_sum(target_fps as int, 0);
            lemma_value_order(sum(t, integer(0)), t);
        }
        assert(y >= n);
    } else {
        assert(r * m <= r * n) by (nonlinear_arith)
            requires
                m <= n,
                r > 0 as real,
        ;
        lemma_held_apart(y, x, 0 as real, n, r * m);
    }
}

/// The lower the temperature's offset, the lower the target frame rate.
pub proof fn lemma_thermal_target_monotone(target_fps: u32, lower: Binary64, higher: Binary64)
    requires
        at_most(lower, higher),
    ensures
        at_most(thermal_target(target_fps, lower), thermal_target(target_fps, higher)),
{
    let t = integer(target_fps as int);
    lemma_integer_value(target_fps as int);
    lemma_integer_value(0);
    lemma_integer_monotone(0, target_fps as int);
    lemma_sum_monotone(lower, higher, t);
    lemma_sum_commutes(lower, t);
    lemma_sum_commutes(higher, t);
}

/// The margin of a target frame rate is in proportion to the target, the base margin being that of
/// 60 frames per second, up to rounding.
pub proof fn lemma_margin_value(base: Binary64, target_fps: u32)
    requires
        base.finite(),
        magnitude_of(value(base)) <= 0x1_0000_0000_0000_0000 as real,
    ensures
        ({
            let exact = target_fps as real * value(base) / 60 as real;
            let got = margin_of(MarginFps::BaseOnly(base), target_fps);
            &&& got.finite()
            &&& within(
                value(got),
                exact,
                (8 as real) * rounding() * magnitude_of(exact) + (2 as real) * rounding()
                    * rounding() * 0x1_0000_0000_0000_0000_0000 as real,
            )
        }),
{
    let n = target_fps as real;
    let b = value(base);
    let r = rounding();
    let y = tiny();
    let t = integer(target_fps as int);
    let d = integer(60);
    let scale = quotient(t, d);
    lemma_tiny();
    lemma_vast();
    lemma_integer_value(target_fps as int);
    lemma_integer_value(60);
    lemma_integer_exact(60);
    lemma_value_order(t, d);
    let q = n / 60 as real;
    lemma_quotient_value(t, d);
    let s = value(scale);
    assert(s - q <= r * q + y && q - s <= r * q + y && q >= 0 as real);
    assert(r * q <= q && y <= 1 as real && r * q >= 0 as real) by (nonlinear_arith)
        requires
            r > 0 as real,
            r <= 1 as real / 1_000_000_000_000_000 as real,
            y <= r * r,
            q >= 0 as real,
    ;
    let m = magnitude_of(b);
    let p = s * b;
    let e = q * b;
    let mp = magnitude_of(p);
    let me = magnitude_of(e);
    assert(me == q * m) by {
        assert(q * b == (if b < 0 as real {
            -(q * m)
        } else {
            q * m
        }) && q * m >= 0 as real) by (nonlinear_arith)
            requires
                q >= 0 as real,
                m >= 0 as real,
                b < 0 as real ==> b == -m,
                b >= 0 as real ==> b == m,
        ;
    }
    let g = (r * q + y) * m;
    assert(p - e <= g && e - p <= g && g >= 0 as real) by (nonlinear_arith)
        requires
            p == s * b,
            e == q * b,
            g == (r * q + y) * m,
            s - q <= r * q + y,
            q - s <= r * q + y,
            r * q + y >= 0 as real,
            -m <= b,
            b <= m,
            m >= 0 as real,
    ;
    assert(g == r * me + y * m) by (nonlinear_arith)
        requires
            g == (r * q + y) * m,
            me == q * m,
    ;
    let big = 0x1_0000_0000_0000_0000 as real;
    assert(y * m <= r * r * big && y * m >= 0 as real && r * me >= 0 as real && r * me <= me)
        by (nonlinear_arith)
        requires
            y > 0 as real,
            y <= r * r,
            0 as real <= m <= big,
            me >= 0 as real,
            r > 0 as real,
            r <= 1 as real / 1_000_000_000_000_000 as real,
    ;
    assert(me <= 0x1_0000_0000 as real * big && r * r * big <= 1 as real) by (nonlinear_arith)
        requires
            me == q * m,
            0 as real <= q <= 0x1_0000_0000 as real,
            0 as real <= m <= big,
            big == 0x1_0000_0000_0000_0000 as real,
            r > 0 as real,
            r <= 1 as real / 1_000_000_000_000_000 as real,
    ;
    lemma_product_value(scale, base);
    assert(mp <= me + me + r * r * big);
    assert(r * mp <= 2 as real * (r * me) + r * (r * r * big)) by (nonlinear_arith)
        requires
            mp <= me + me + r * r * big,
            r > 0 as real,
    ;
    let small = r * r * big;
    assert(r * small <= small && y <= small) by (nonlinear_arith)
        requires
            small == r * r * big,
            big >= 1 as real,
            r > 0 as real,
            r <= 1 as real / 1_000_000_000_000_000 as real,
            y <= r * r,
    ;
    assert((8 as real) * r * me == 8 as real * (r * me)) by (nonlinear_arith);
    assert((2 as real) * r * r * 0x1_0000_0000_0000_0000_0000 as real >= 4 as real * small)
        by (nonlinear_arith)
        requires
            small == r * r * big,
            big == 0x1_0000_0000_0000_0000 as real,
            r > 0 as real,
    ;
    assert(n * b / 60 as real == e) by (nonlinear_arith)
        requires
            q == n / 60 as real,
            e == q * b,
    ;
}

/// A margin that is listed for a target is taken as it is; another target goes by the base
/// margin.
pub proof fn lemma_margin_listed(margin: MarginFps, base: Binary64, target_fps: u32)
    requires
        margin matches MarginFps::Advanced { base: b, overrides } && b == base,
    ensures
        ({
            let overrides = margin->overrides@;
            let key = decimal(target_fps as nat);
            &&& overrides.contains_key(key) ==> margin_of(margin, target_fps) == overrides[key]
            &&& !overrides.contains_key(key) ==> margin_of(margin, target_fps) == margin_of(
                MarginFps::BaseOnly(base),
                target_fps,
            )
        }),
{
}

/// The change of the frequency in a step: the proportional answer while the demand is not
/// followed; otherwise a step down below the low mark, the lesser of the answer and the longest
/// step up above the high mark, and nothing in between.
pub proof fn lemma_control_cases(
    buffer: Buffer,
    margin: MarginFps,
    state: ControllerState,
    target_fps: u32,
    input: ControlInput,
)
    ensures
        ({
            let step = control_step(buffer, margin, state, target_fps, input);
            let demand = clamped(input.demand, integer(0), integer(1));
            let low = state.params.demand_low;
            let high = state.params.demand_high;
            &&& !step.follow_demand ==> step.control == step.raw
            &&& step.follow_demand && !less(demand, low) && !less(high, demand) ==> step.control
                == 0
            &&& step.follow_demand && !less(demand, low) && less(high, demand) ==> {
                &&& step.control <= step.raw && step.control <= step_up(state)
                &&& step.control == step.raw || step.control == step_up(state)
            }
        }),
{
}

/// A step keeps what it does not decide, and notes when it looked at the usage of the cores: once
/// a second.
pub proof fn lemma_step_keeps(
    buffer: Buffer,
    margin: MarginFps,
    state: ControllerState,
    target_fps: u32,
    input: ControlInput,
)
    ensures
        ({
            let step = control_step(buffer, margin, state, target_fps, input);
            let after = state_after(state, step, input.now);
            &&& after.params == state.params
            &&& after.max_freq == state.max_freq
            &&& after.is_janked == state.is_janked
            &&& after.was_fps_ok == step.fps_ok
            &&& after.last_control_mode == step.follow_demand
            &&& after.last_mode_switch == (if step.follow_demand == state.last_control_mode {
                state.last_mode_switch
            } else {
                input.now
            })
            &&& after.usage_sample_timer == (if elapsed(state.usage_sample_timer, input.now)
                >= 1_000_000_000 {
                input.now
            } else {
                state.usage_sample_timer
            })
        }),
{
}

/// What a step does to the offset of the target frame rate, which is from -3 to 0: nothing before
/// a second is over, or while the usage of the cores is neither low nor high; none is left while
/// they idle; a tenth less while their usage is low, and a tenth more while it is high, within the
/// bounds and up to rounding.
pub proof fn lemma_offset_value(
    buffer: Buffer,
    margin: MarginFps,
    state: ControllerState,
    target_fps: u32,
    input: ControlInput,
)
    requires
        state.target_fps_offset.finite(),
        -(3 as real) <= value(state.target_fps_offset) <= 0 as real,
    ensures
        ({
            let step = control_step(buffer, margin, state, target_fps, input);
            let before = state.target_fps_offset;
            let after = state_after(state, step, input.now).target_fps_offset;
            let due = elapsed(state.usage_sample_timer, input.now) >= 1_000_000_000;
            let util = input.util_max;
            let idle = at_most(util, ratio(1, 10));
            let low = !idle && at_most(util, ratio(55, 100));
            let high = !idle && !low && at_most(ratio(65, 100), util);
            let tenth = 1 as real / 10 as real;
            &&& after.finite()
            &&& -(3 as real) <= value(after) <= 0 as real
            &&& !due ==> value(after) == value(before)
            &&& due && idle ==> value(after) == 0 as real
            &&& due && low ==> within(
                value(after),
                held(value(before) - tenth, -(3 as real), 0 as real),
                (8 as real) * rounding(),
            )
            &&& due && high ==> within(
                value(after),
                held(value(before) + tenth, -(3 as real), 0 as real),
                (8 as real) * rounding(),
            )
            &&& due && !idle && !low && !high ==> value(after) == value(before)
        }),
{
    let before = state.target_fps_offset;
    let tenth = ratio(1, 10);
    let b = value(before);
    let r = rounding();
    let y = tiny();
    lemma_tiny();
    lemma_vast();
    lemma_integer_value(0);
    lemma_integer_value(1);
    lemma_integer_value(3);
    lemma_integer_value(10);
    lemma_integer_exact(10);
    lemma_opposite_value(integer(3));
    lemma_quotient_value(integer(1), integer(10));
    let t = value(tenth);
    let x = 1 as real / 10 as real;
    assert(r * x + y <= r) by (nonlinear_arith)
        requires
            x == 1 as real / 10 as real,
            y <= r * r,
            r > 0 as real,
            r <= 1 as real / 1_000_000_000_000_000 as real,
    ;
    assert(within(t, x, r));
    lemma_sum_value(before, tenth);
    lemma_difference_value(before, tenth);
    let up = magnitude_of(b + t);
    let down = magnitude_of(b - t);
    assert(r * up <= 4 as real * r && r * down <= 4 as real * r) by (nonlinear_arith)
        requires
            up <= 4 as real,
            down <= 4 as real,
            r > 0 as real,
    ;
    let low = opposite(integer(3));
    lemma_clamped_value(before, low, integer(0));
    lemma_clamped_value(integer(0), low, integer(0));
    lemma_clamped_value(sum(before, tenth), low, integer(0));
    lemma_clamped_value(difference(before, tenth), low, integer(0));
    lemma_held_apart(value(sum(before, tenth)), b + x, -(3 as real), 0 as real, 8 as real * r);
    lemma_held_apart(
        value(difference(before, tenth)),
        b - x,
        -(3 as real),
        0 as real,
        8 as real * r,
    );
}

/// The rate that the newest frame is measured against, as a real number: the target frame rate
/// with the temperature's offset, held from zero to the target, and with the offset that the
/// usage of the cores leads to, without the margin.
pub open spec fn exact_rate(
    target_fps: u32,
    thermal_offset: Binary64,
    usage_offset: Binary64,
    margin: Binary64,
) -> real {
    held(target_fps as real + value(thermal_offset), 0 as real, target_fps as real) + value(
        usage_offset,
    ) - value(margin)
}

/// What a step may be off by in measuring the newest frame, besides half a nanosecond.
pub open spec fn frame_slack(target_fps: u32, margin: Binary64, newest: nat) -> real {
    rounding() * (32 as real * (target_fps as real + 3 as real + value(margin)) * (newest as real
        + 1 as real))
}

/// The arithmetic of a rate and a span that are each slightly off.
proof fn lemma_stretched(
    rate: real,
    exact: real,
    secs: real,
    span: real,
    got: real,
    scale: real,
    newest: real,
)
    requires
        scale >= 3 as real,
        newest >= 0 as real,
        span == newest / 1_000_000_000 as real,
        within(rate, exact, 4 as real * (rounding() * scale)),
        magnitude_of(exact) <= scale,
        within(secs, span, 6 as real * rounding() * span),
        within(got, rate * secs, rounding() * magnitude_of(rate * secs) + tiny()),
    ensures
        within(
            got * 1_000_000_000 as real,
            newest * exact,
            rounding() * (31 as real * scale * (newest + 1 as real)),
        ),
{
    let r = rounding();
    let g = 1_000_000_000 as real;
    lemma_tiny();
    let e = r * scale;
    let rs = r * span;
    assert(span >= 0 as real && newest == span * g) by (nonlinear_arith)
        requires
            newest >= 0 as real,
            span == newest / g,
            g == 1_000_000_000 as real,
    ;
    assert(0 as real <= e <= scale / 100 as real && 0 as real <= rs <= span / 100 as real)
        by (nonlinear_arith)
        requires
            e == r * scale,
            rs == r * span,
            scale >= 3 as real,
            span >= 0 as real,
            r > 0 as real,
            r <= 1 as real / 1_000_000_000_000_000 as real,
    ;
    assert(6 as real * r * span == 6 as real * rs) by (nonlinear_arith)
        requires
            rs == r * span,
    ;
    let es = e * span;
    assert(scale * rs == es) by (nonlinear_arith)
        requires
            rs == r * span,
            e == r * scale,
            es == e * span,
    ;
    let p = rate * secs;
    let q = exact * span;
    assert(p - q <= 14 as real * es && q - p <= 14 as real * es) by {
        let dr = rate - exact;
        let ds = secs - span;
        assert(p - q == dr * secs + exact * ds) by (nonlinear_arith)
            requires
                p == rate * secs,
                q == exact * span,
                dr == rate - exact,
                ds == secs - span,
        ;
        assert(dr * secs <= 8 as real * es && -(dr * secs) <= 8 as real * es) by (nonlinear_arith)
            requires
                -(4 as real * e) <= dr,
                dr <= 4 as real * e,
                0 as real <= secs <= 2 as real * span,
                es == e * span,
                e >= 0 as real,
        ;
        assert(exact * ds <= 6 as real * es && -(exact * ds) <= 6 as real * es)
            by (nonlinear_arith)
            requires
                -scale <= exact,
                exact <= scale,
                -(6 as real * rs) <= ds,
                ds <= 6 as real * rs,
                scale * rs == es,
                rs >= 0 as real,
        ;
    }
    let m = magnitude_of(p);
    assert(m <= 4 as real * (scale * span)) by (nonlinear_arith)
        requires
            p == rate * secs,
            m == p || m == -p,
            -(2 as real * scale) <= rate,
            rate <= 2 as real * scale,
            0 as real <= secs <= 2 as real * span,
    ;
    assert(r * m <= 4 as real * es) by (nonlinear_arith)
        requires
            m <= 4 as real * (scale * span),
            es == e * span,
            e == r * scale,
            r > 0 as real,
    ;
    assert(within(got, q, 18 as real * es + tiny()));
    let y = tiny();
    assert(y * g <= r && r <= e) by (nonlinear_arith)
        requires
            y <= r * r,
            r > 0 as real,
            r <= 1 as real / 1_000_000_000_000_000 as real,
            g == 1_000_000_000 as real,
            e == r * scale,
            scale >= 3 as real,
    ;
    assert(q * g == newest * exact && es * g == e * newest) by (nonlinear_arith)
        requires
            newest == span * g,
            q == exact * span,
            es == e * span,
    ;
    let bound = r * (31 as real * scale * (newest + 1 as real));
    assert(bound == 31 as real * (e * newest) + 31 as real * e) by (nonlinear_arith)
        requires
            bound == r * (31 as real * scale * (newest + 1 as real)),
            e == r * scale,
    ;
    assert(e * newest >= 0 as real) by (nonlinear_arith)
        requires
            e >= 0 as real,
            newest >= 0 as real,
    ;
}

/// The newest frame is measured against the target frame rate with the temperature's offset, held
/// from zero to the target, and with the offset that the usage of the cores leads to, without the
/// margin: what a step makes of the frame is its time in nanoseconds times that rate, which is a
/// second where the frame took one period, up to half a nanosecond and rounding.
pub proof fn lemma_frame_value(
    buffer: Buffer,
    margin: MarginFps,
    state: ControllerState,
    target_fps: u32,
    input: ControlInput,
)
    requires
        state.target_fps_offset.finite(),
        -(3 as real) <= value(state.target_fps_offset) <= 0 as real,
        input.target_fps_offset_thermal.finite(),
        magnitude_of(value(input.target_fps_offset_thermal)) <= vast() / 2 as real,
        margin_of(margin, target_fps).finite(),
        0 as real <= value(margin_of(margin, target_fps)) <= 0x1_0000_0000_0000_0000 as real,
        newest_frame(buffer) <= MAX_NANOS,
        stretches(newest_frame(buffer), measured_fps(state, margin, target_fps, input)),
    ensures
        ({
            let step = control_step(buffer, margin, state, target_fps, input);
            let after = state_after(state, step, input.now);
            within(
                step.frame as real,
                newest_frame(buffer) as real * exact_rate(
                    target_fps,
                    input.target_fps_offset_thermal,
                    after.target_fps_offset,
                    margin_of(margin, target_fps),
                ),
                1 as real / 2 as real + frame_slack(
                    target_fps,
                    margin_of(margin, target_fps),
                    newest_frame(buffer),
                ),
            )
        }),
{
    let n = target_fps as real;
    let r = rounding();
    let off = next_offset(state, input.util_max, input.now);
    let thermal = thermal_target(target_fps, input.target_fps_offset_thermal);
    let limit = margin_of(margin, target_fps);
    let t = held(n + value(input.target_fps_offset_thermal), 0 as real, n);
    let o = value(off);
    let m = value(limit);
    let scale = n + 3 as real + m;
    let f = newest_frame(buffer);
    let g = 1_000_000_000 as real;
    let span = f as real / g;
    lemma_tiny();
    lemma_vast();
    lemma_thermal_target_value(target_fps, input.target_fps_offset_thermal);
    lemma_offset_value(buffer, margin, state, target_fps, input);
    let added = sum(thermal, off);
    lemma_sum_value(thermal, off);
    let s = value(thermal) + o;
    let ms = magnitude_of(s);
    assert(r * ms <= r * (n + 3 as real) && r * n >= 0 as real && r * (n + 3 as real) <= 1 as real)
        by (nonlinear_arith)
        requires
            ms <= n + 3 as real,
            r > 0 as real,
            r <= 1 as real / 1_000_000_000_000_000 as real,
            0 as real <= n <= 0x1_0000_0000 as real,
    ;
    let rate = difference(added, limit);
    lemma_difference_value(added, limit);
    let d = value(added) - m;
    let md = magnitude_of(d);
    assert(r * md <= 2 as real * (r * scale) && r * n <= r * scale && r * (n + 3 as real) <= r
        * scale) by (nonlinear_arith)
        requires
            md <= 2 as real * scale,
            scale == n + 3 as real + m,
            m >= 0 as real,
            r > 0 as real,
    ;
    let exact = t + o - m;
    assert(within(value(rate), exact, 4 as real * (r * scale)));
    lemma_seconds_value(f);
    let secs = value(in_seconds(f));
    assert(0 as real <= span <= 0x1_0000_0000_0000_0000_0000 as real) by (nonlinear_arith)
        requires
            f <= MAX_NANOS,
            span == f as real / g,
            g == 1_000_000_000 as real,
    ;
    let big = 0x1_0000_0000_0000_0000_0000_0000_0000_0000int as real;
    let got = product(rate, in_seconds(f));
    let v = value(rate);
    let p = v * secs;
    assert(6 as real * r * span <= span && 4 as real * (r * scale) <= scale && 6 as real * r * span
        >= 0 as real) by (nonlinear_arith)
        requires
            r > 0 as real,
            r <= 1 as real / 1_000_000_000_000_000 as real,
            span >= 0 as real,
            scale >= 3 as real,
    ;
    let mp = magnitude_of(p);
    assert(mp <= 4 as real * (scale * span)) by (nonlinear_arith)
        requires
            p == v * secs,
            mp == p || mp == -p,
            -(2 as real * scale) <= v,
            v <= 2 as real * scale,
            0 as real <= secs <= 2 as real * span,
    ;
    assert(4 as real * (scale * span) <= big * big) by (nonlinear_arith)
        requires
            0 as real <= scale <= 0x1_0000_0000_0000_0000_0000 as real,
            0 as real <= span <= 0x1_0000_0000_0000_0000_0000 as real,
            big == 0x1_0000_0000_0000_0000_0000_0000_0000_0000int as real,
    ;
    lemma_product_value(rate, in_seconds(f));
    lemma_value_order(got, got);
    lemma_nanos_value(got);
    lemma_stretched(v, exact, secs, span, value(got), scale, f as real);
    let slack = frame_slack(target_fps, limit, f);
    let less_slack = r * (31 as real * scale * (f as real + 1 as real));
    assert(less_slack <= slack) by (nonlinear_arith)
        requires
            slack == r * (32 as real * scale * (f as real + 1 as real)),
            less_slack == r * (31 as real * scale * (f as real + 1 as real)),
            r > 0 as real,
            scale >= 3 as real,
            f as real >= 0 as real,
    ;
}

/// A frame that took no longer than one period of the rate that it is measured against is in time,
/// and one that took longer by more than a nanosecond in that second is late, for frames and rates
/// that a second tells apart.
pub proof fn lemma_frame_in_time(
    buffer: Buffer,
    margin: MarginFps,
    state: ControllerState,
    target_fps: u32,
    input: ControlInput,
)
    requires
        state.target_fps_offset.finite(),
        -(3 as real) <= value(state.target_fps_offset) <= 0 as real,
        input.target_fps_offset_thermal.finite(),
        magnitude_of(value(input.target_fps_offset_thermal)) <= vast() / 2 as real,
        margin_of(margin, target_fps).finite(),
        0 as real <= value(margin_of(margin, target_fps)) <= 0x1_0000_0000_0000_0000 as real,
        newest_frame(buffer) <= MAX_NANOS,
        stretches(newest_frame(buffer), measured_fps(state, margin, target_fps, input)),
        frame_slack(target_fps, margin_of(margin, target_fps), newest_frame(buffer)) < 1 as real
            / 2 as real,
    ensures
        ({
            let step = control_step(buffer, margin, state, target_fps, input);
            let after = state_after(state, step, input.now);
            let lowered = held(
                target_fps as real + value(input.target_fps_offset_thermal),
                0 as real,
                target_fps as real,
            );
            let time = newest_frame(buffer) as real;
            let taken = time * exact_rate(
                target_fps,
                input.target_fps_offset_thermal,
                after.target_fps_offset,
                margin_of(margin, target_fps),
            );
            &&& time * lowered <= 1_000_000_000 as real ==> step.frame <= 1_000_000_000
            &&& taken <= 1_000_000_000 as real ==> step.frame <= 1_000_000_000
            &&& taken >= 1_000_000_001 as real ==> step.frame > 1_000_000_000
        }),
{
    lemma_frame_value(buffer, margin, state, target_fps, input);
    lemma_offset_value(buffer, margin, state, target_fps, input);
    let step = control_step(buffer, margin, state, target_fps, input);
    let after = state_after(state, step, input.now);
    let lowered = held(
        target_fps as real + value(input.target_fps_offset_thermal),
        0 as real,
        target_fps as real,
    );
    let rate = exact_rate(
        target_fps,
        input.target_fps_offset_thermal,
        after.target_fps_offset,
        margin_of(margin, target_fps),
    );
    let f = newest_frame(buffer) as real;
    assert(f * rate <= f * lowered) by (nonlinear_arith)
        requires
            f >= 0 as real,
            rate <= lowered,
    ;
}

/// Nothing added to a number leaves it where it is.
proof fn lemma_plus_nothing(a: Binary64, zero: Binary64)
    requires
        a.finite(),
        zero.finite(),
        zero.units() == 0,
    ensures
        sum(a, zero).order() == a.order(),
        !sum(a, zero).nan(),
{
    lemma_sum_order(a, zero);
    lemma_nearest_exact(a.magnitude());
    lemma_nearest_exact(0);
    lemma_with_sign(a.units() < 0, a.magnitude());
    lemma_with_sign(false, 0);
    lemma_order_is_value(a, zero);
}

/// The rate that the newest frame is measured against is never above the target frame rate that
/// the temperature allows.
pub proof fn lemma_measured_fps_bounded(
    margin: MarginFps,
    state: ControllerState,
    target_fps: u32,
    input: ControlInput,
)
    requires
        !input.target_fps_offset_thermal.nan(),
        at_most(opposite(integer(3)), state.target_fps_offset),
        at_most(state.target_fps_offset, integer(0)),
        margin_of(margin, target_fps).finite(),
        !margin_of(margin, target_fps).negative(),
    ensures
        at_most(
            measured_fps(state, margin, target_fps, input),
            thermal_target(target_fps, input.target_fps_offset_thermal),
        ),
{
    let thermal = thermal_target(target_fps, input.target_fps_offset_thermal);
    let off = next_offset(state, input.util_max, input.now);
    let limit = margin_of(margin, target_fps);
    let zero = integer(0);
    let three = opposite(integer(3));
    lemma_thermal_target_bounded(target_fps, input.target_fps_offset_thermal);
    lemma_offset_bounded(state, input.util_max, input.now);
    lemma_integer_value(0);
    lemma_integer_value(3);
    lemma_integer_value(target_fps as int);
    lemma_opposite_value(integer(3));
    lemma_tiny();
    lemma_vast();
    lemma_value_order(zero, thermal);
    lemma_value_order(thermal, integer(target_fps as int));
    lemma_value_order(three, off);
    lemma_value_order(off, zero);
    lemma_order_is_value(zero, zero);
    let added = sum(thermal, off);
    lemma_sum_value(thermal, off);
    lemma_sum_monotone(off, zero, thermal);
    lemma_sum_commutes(off, thermal);
    lemma_sum_commutes(zero, thermal);
    lemma_plus_nothing(thermal, zero);
    let back = opposite(limit);
    lemma_with_sign(!limit.negative(), limit.magnitude());
    lemma_sum_monotone(back, zero, added);
    lemma_sum_commutes(back, added);
    lemma_sum_commutes(zero, added);
    lemma_plus_nothing(added, zero);
}

/// The hotter the device, the lower the rate that the newest frame is measured against, and the
/// shorter the frame counts: a step never finds a frame late that it would find in time at a
/// higher offset.
pub proof fn lemma_frame_falls_with_heat(
    buffer: Buffer,
    margin: MarginFps,
    state: ControllerState,
    target_fps: u32,
    hot: ControlInput,
    cool: ControlInput,
)
    requires
        at_most(hot.target_fps_offset_thermal, cool.target_fps_offset_thermal),
        hot.util_max == cool.util_max,
        hot.now == cool.now,
        at_most(opposite(integer(3)), state.target_fps_offset),
        at_most(state.target_fps_offset, integer(0)),
        margin_of(margin, target_fps).finite(),
        value(margin_of(margin, target_fps)) <= vast() / 4 as real,
        newest_frame(buffer) <= MAX_NANOS,
        control_defined(buffer, margin, state, target_fps, hot),
        control_defined(buffer, margin, state, target_fps, cool),
    ensures
        at_most(
            measured_fps(state, margin, target_fps, hot),
            measured_fps(state, margin, target_fps, cool),
        ),
        control_step(buffer, margin, state, target_fps, hot).frame <= control_step(
            buffer,
            margin,
            state,
            target_fps,
            cool,
        ).frame,
{
    let low = thermal_target(target_fps, hot.target_fps_offset_thermal);
    let high = thermal_target(target_fps, cool.target_fps_offset_thermal);
    let off = next_offset(state, hot.util_max, hot.now);
    let limit = margin_of(margin, target_fps);
    let zero = integer(0);
    let three = opposite(integer(3));
    let n = integer(target_fps as int);
    lemma_thermal_target_monotone(
        target_fps,
        hot.target_fps_offset_thermal,
        cool.target_fps_offset_thermal,
    );
    lemma_thermal_target_bounded(target_fps, hot.target_fps_offset_thermal);
    lemma_thermal_target_bounded(target_fps, cool.target_fps_offset_thermal);
    lemma_offset_bounded(state, hot.util_max, hot.now);
    lemma_integer_value(0);
    lemma_integer_value(3);
    lemma_integer_value(target_fps as int);
    lemma_opposite_value(integer(3));
    lemma_opposite_value(limit);
    lemma_tiny();
    lemma_vast();
    lemma_value_order(three, off);
    lemma_value_order(off, zero);
    lemma_value_order(limit, limit);
    lemma_value_order(zero, low);
    lemma_value_order(zero, high);
    lemma_value_order(low, n);
    lemma_value_order(high, n);
    let back = opposite(limit);
    let r = rounding();
    lemma_sum_value(low, off);
    lemma_sum_value(high, off);
    let ml = magnitude_of(value(low) + value(off));
    let mh = magnitude_of(value(high) + value(off));
    assert(r * ml <= ml && r * mh <= mh) by (nonlinear_arith)
        requires
            r > 0 as real,
            r <= 1 as real / 1_000_000_000_000_000 as real,
            ml >= 0 as real,
            mh >= 0 as real,
    ;
    lemma_sum_monotone(low, high, off);
    lemma_sum_value(sum(low, off), back);
    lemma_sum_value(sum(high, off), back);
    lemma_sum_monotone(sum(low, off), sum(high, off), back);
    let slow = sum(sum(low, off), back);
    let fast = sum(sum(high, off), back);
    let f = newest_frame(buffer);
    let secs = in_seconds(f);
    lemma_seconds_value(f);
    lemma_product_monotone(slow, fast, secs);
    let a = product(slow, secs);
    let b = product(fast, secs);
    lemma_order_is_value(a, b);
    lemma_order_is_value(b, a);
    let one = one_in_units();
    lemma_pow2_pos(1074);
    let x = units_of(a.magnitude());
    let y = units_of(b.magnitude());
    assert(units_of(0) == 0);
    assert(x <= y);
    assert((x * 1_000_000_000) * one <= (y * 1_000_000_000) * one) by (nonlinear_arith)
        requires
            x <= y,
            one > 0,
    ;
    lemma_half_even_monotone(x * 1_000_000_000, one, y * 1_000_000_000, one);
}

/// Rounding leaves a number no more than a share of its bound off.
proof fn lemma_share(m: real, bound: real)
    requires
        0 as real <= m <= bound,
    ensures
        0 as real <= rounding() * m <= rounding() * bound,
        rounding() * bound <= bound / 1_000_000 as real,
        tiny() <= rounding() / 1_000_000 as real,
        tiny() > 0 as real,
        0 as real <= rounding() <= 1 as real / 1_000_000_000_000_000 as real,
{
    let r = rounding();
    let y = tiny();
    lemma_tiny();
    assert(0 as real <= r * m <= r * bound && r * bound <= bound / 1_000_000 as real && y <= r
        / 1_000_000 as real) by (nonlinear_arith)
        requires
            0 as real <= m <= bound,
            r > 0 as real,
            y <= r * r,
            r <= 1 as real / 1_000_000_000_000_000 as real,
    ;
}

/// The product of two numbers that are each slightly off.
proof fn lemma_product_apart(
    x: real,
    a: real,
    dx: real,
    y: real,
    b: real,
    dy: real,
    bound_y: real,
)
    requires
        within(x, a, dx),
        within(y, b, dy),
        magnitude_of(y) <= bound_y,
        dx >= 0 as real,
        dy >= 0 as real,
    ensures
        within(x * y, a * b, dx * bound_y + magnitude_of(a) * dy),
{
    let u = x - a;
    let v = y - b;
    let m = magnitude_of(a);
    assert(x * y - a * b == u * y + a * v) by (nonlinear_arith)
        requires
            u == x - a,
            v == y - b,
    ;
    assert(u * y <= dx * bound_y && -(u * y) <= dx * bound_y) by (nonlinear_arith)
        requires
            -dx <= u,
            u <= dx,
            -bound_y <= y,
            y <= bound_y,
            dx >= 0 as real,
    ;
    assert(a * v <= m * dy && -(a * v) <= m * dy) by (nonlinear_arith)
        requires
            -dy <= v,
            v <= dy,
            -m <= a,
            a <= m,
            dy >= 0 as real,
    ;
}

/// A whole number from the real number behind a finite one is less than one off.
proof fn lemma_whole_apart(a: Binary64, exact: real, d: real)
    requires
        a.finite(),
        magnitude_of(value(a)) <= isize::MAX as real,
        within(value(a), exact, d),
    ensures
        within(whole_part(a) as real, exact, 1 as real + d),
{
    lemma_whole_part_value(a);
}

/// The longest step up is the highest frequency times the share that is set for it, up to
/// rounding and less than 1 kHz.
pub proof fn lemma_step_up_value(state: ControllerState)
    requires
        state.max_freq >= 0,
        state.params.demand_up_max.finite(),
        value(state.params.demand_up_max) >= 0 as real,
        2 as real * (state.max_freq as real * value(state.params.demand_up_max)) + 1 as real
            <= isize::MAX as real,
    ensures
        within(
            step_up(state) as real,
            state.max_freq as real * value(state.params.demand_up_max),
            1 as real + 4 as real * (rounding() * (state.max_freq as real * value(
                state.params.demand_up_max,
            ) + 1 as real)),
        ),
{
    let n = state.max_freq as real;
    let u = value(state.params.demand_up_max);
    let top = integer(state.max_freq as int);
    let r = rounding();
    let exact = n * u;
    lemma_vast();
    lemma_integer_value(state.max_freq as int);
    lemma_share(n, n);
    let p = value(top) * u;
    lemma_product_apart(value(top), n, r * n, u, u, 0 as real, u);
    assert(r * n * u == r * exact && exact >= 0 as real && n * 0 as real == 0 as real)
        by (nonlinear_arith)
        requires
            exact == n * u,
            n >= 0 as real,
            u >= 0 as real,
    ;
    lemma_share(exact, exact);
    let m = magnitude_of(p);
    lemma_share(m, 2 as real * exact);
    assert(r * (2 as real * exact) == 2 as real * (r * exact)) by (nonlinear_arith);
    lemma_product_value(top, state.params.demand_up_max);
    let bound = 4 as real * (r * (exact + 1 as real));
    assert(bound == 4 as real * (r * exact) + 4 as real * r) by (nonlinear_arith)
        requires
            bound == 4 as real * (r * (exact + 1 as real)),
    ;
    lemma_whole_apart(product(top, state.params.demand_up_max), exact, bound);
}

/// The step down for a demand below the low mark, as a real number: a share of the highest
/// frequency that grows, from the base by the scale, as the demand falls from the mark to zero.
pub open spec fn exact_step_down(state: ControllerState, demand: real) -> real {
    let low = value(state.params.demand_low);
    state.max_freq as real * (value(state.params.demand_step_base) + value(
        state.params.demand_step_scale,
    ) * ((low - demand) / low))
}

/// The longest step down as a real number, which is for a demand of zero.
pub open spec fn greatest_step_down(state: ControllerState) -> real {
    state.max_freq as real * (value(state.params.demand_step_base) + value(
        state.params.demand_step_scale,
    ))
}

/// What the step down is made of: finite shares that are not negative and a low mark above zero.
pub open spec fn steps_down(state: ControllerState) -> bool {
    &&& state.max_freq >= 0
    &&& state.params.demand_low.finite()
    &&& !state.params.demand_low.negative()
    &&& state.params.demand_step_base.finite()
    &&& state.params.demand_step_scale.finite()
    &&& value(state.params.demand_low) > 0 as real
    &&& value(state.params.demand_low) <= 0x1_0000_0000 as real
    &&& 0 as real <= value(state.params.demand_step_base)
    &&& value(state.params.demand_step_base) <= 0x1_0000_0000 as real
    &&& 0 as real <= value(state.params.demand_step_scale)
    &&& value(state.params.demand_step_scale) <= 0x1_0000_0000 as real
    &&& 2 as real * greatest_step_down(state) + 65_536 as real <= isize::MAX as real
}

/// The step down is a share of the highest frequency that is the base at the low mark and the base
/// and the scale together at no demand, and in proportion in between, up to rounding and 1 kHz.
pub proof fn lemma_step_down_value(state: ControllerState, demand: Binary64)
    requires
        steps_down(state),
        demand.finite(),
        0 as real <= value(demand) <= value(state.params.demand_low),
    ensures
        within(
            step_down(state, demand) as real,
            exact_step_down(state, value(demand)),
            1 as real + 32 as real * (rounding() * (greatest_step_down(state)
                + state.max_freq as real + 1 as real)),
        ),
{
    let n = state.max_freq as real;
    let low = state.params.demand_low;
    let l = value(low);
    let d = value(demand);
    let base = state.params.demand_step_base;
    let scale = state.params.demand_step_scale;
    let b = value(base);
    let c = value(scale);
    let r = rounding();
    let y = tiny();
    let top = integer(state.max_freq as int);
    lemma_vast();
    lemma_integer_value(state.max_freq as int);
    lemma_share(n, n);
    // The shortfall and its share of the mark.
    let g = l - d;
    let gap = difference(low, demand);
    lemma_difference_value(low, demand);
    lemma_share(g, l);
    let x = g / l;
    let q = value(gap) / l;
    assert(0 as real <= x <= 1 as real && q - x <= r && x - q <= r && x * l == g)
        by (nonlinear_arith)
        requires
            x == g / l,
            q == value(gap) / l,
            0 as real <= g <= l,
            l > 0 as real,
            value(gap) - g <= r * l,
            g - value(gap) <= r * l,
    ;
    let share = quotient(gap, low);
    lemma_quotient_value(gap, low);
    lemma_share(magnitude_of(q), 2 as real);
    let z = value(share);
    assert(within(z, x, 4 as real * r));
    // Times the scale, with the base.
    lemma_product_apart(z, x, 4 as real * r, c, c, 0 as real, c);
    let p = z * c;
    assert(x * c <= c && x * c >= 0 as real && 4 as real * r * c == 4 as real * (r * c) && x
        * 0 as real == 0 as real) by (nonlinear_arith)
        requires
            0 as real <= x <= 1 as real,
            c >= 0 as real,
    ;
    lemma_share(c, c);
    lemma_share(magnitude_of(p), 2 as real * c);
    assert(r * (2 as real * c) == 2 as real * (r * c)) by (nonlinear_arith);
    let part = product(share, scale);
    lemma_product_value(share, scale);
    let v = value(part);
    assert(within(v, x * c, 6 as real * (r * c) + y));
    let h = b + c;
    assert(r * h == r * b + r * c) by (nonlinear_arith)
        requires
            h == b + c,
    ;
    lemma_share(b, h);
    lemma_share(magnitude_of(b + v), 2 as real * h + 1 as real);
    assert(r * (2 as real * h + 1 as real) == 2 as real * (r * h) + r) by (nonlinear_arith);
    let whole = sum(base, part);
    lemma_sum_value(base, part);
    let w = value(whole);
    let e = b + x * c;
    let dw = 8 as real * (r * h) + 2 as real * r;
    assert(within(w, e, dw));
    // Times the frequency.
    lemma_share(h, h);
    assert(magnitude_of(w) <= 2 as real * h + 1 as real);
    lemma_product_apart(value(top), n, r * n, w, e, dw, 2 as real * h + 1 as real);
    let k = n * h;
    assert(r * n * (2 as real * h + 1 as real) == 2 as real * (r * k) + r * n && n * dw == 8 as real
        * (r * k) + 2 as real * (r * n) && k >= 0 as real) by (nonlinear_arith)
        requires
            k == n * h,
            dw == 8 as real * (r * h) + 2 as real * r,
            n >= 0 as real,
            h >= 0 as real,
    ;
    let t = value(top) * w;
    assert(within(t, n * e, 10 as real * (r * k) + 3 as real * (r * n)));
    assert(0 as real <= n * e <= k) by (nonlinear_arith)
        requires
            k == n * h,
            0 as real <= e <= h,
            n >= 0 as real,
    ;
    lemma_share(k, k);
    lemma_share(magnitude_of(t), 2 as real * k + n);
    assert(r * (2 as real * k + n) == 2 as real * (r * k) + r * n) by (nonlinear_arith);
    let got = product(top, whole);
    lemma_product_value(top, whole);
    let bound = 32 as real * (r * (k + n + 1 as real));
    assert(bound == 32 as real * (r * k) + 32 as real * (r * n) + 32 as real * r)
        by (nonlinear_arith)
        requires
            bound == 32 as real * (r * (k + n + 1 as real)),
    ;
    assert(n * e == exact_step_down(state, d)) by (nonlinear_arith)
        requires
            e == b + x * c,
            exact_step_down(state, d) == n * (b + c * x),
    ;
    assert(r * n <= 1_024 as real) by (nonlinear_arith)
        requires
            0 as real <= r <= 1 as real / 1_000_000_000_000_000 as real,
            0 as real <= n <= 0x8000_0000_0000_0000 as real,
            r * n <= n / 1_000_000 as real,
            r == 1 as real / 0x20_0000_0000_0000 as real,
    ;
    lemma_whole_apart(got, n * e, bound);
}

/// Where the demand is followed and is below the low mark, a step takes the frequency down by a
/// share of the highest one that grows in proportion as the demand falls.
pub proof fn lemma_low_demand_value(
    buffer: Buffer,
    margin: MarginFps,
    state: ControllerState,
    target_fps: u32,
    input: ControlInput,
)
    requires
        steps_down(state),
        input.demand.finite(),
        held(value(input.demand), 0 as real, 1 as real) < value(state.params.demand_low),
        control_step(buffer, margin, state, target_fps, input).follow_demand,
    ensures
        within(
            control_step(buffer, margin, state, target_fps, input).control as real,
            -exact_step_down(state, held(value(input.demand), 0 as real, 1 as real)),
            1 as real + 32 as real * (rounding() * (greatest_step_down(state)
                + state.max_freq as real + 1 as real)),
        ),
{
    let demand = clamped(input.demand, integer(0), integer(1));
    lemma_integer_value(0);
    lemma_integer_value(1);
    lemma_clamped_value(input.demand, integer(0), integer(1));
    lemma_value_order(demand, state.params.demand_low);
    lemma_step_down_value(state, demand);
}

/// What the proportional answer is made of: a gain and a greatest step that are not negative and
/// a decay threshold above zero.
pub open spec fn answers(state: ControllerState) -> bool {
    let gain = state.params.kp;
    let threshold = state.params.util_decay_threshold;
    let ratio = state.params.max_step_ratio;
    &&& state.max_freq >= 0
    &&& gain.finite() && !gain.negative()
    &&& threshold.finite() && !threshold.negative()
    &&& ratio.finite() && !ratio.negative()
    &&& 0 as real <= value(gain) <= 0x1_0000_0000 as real
    &&& value(threshold) >= rounding()
    &&& 0 as real <= value(ratio) <= 0x1_0000_0000 as real
    &&& 2 as real * greatest_step(state) + 2 as real <= isize::MAX as real
}

/// The greatest step as a real number: a share of the highest frequency.
pub open spec fn greatest_step(state: ControllerState) -> real {
    state.max_freq as real * value(state.params.max_step_ratio)
}

/// The share of the answer to a late frame that is left at a demand: all of it from the decay
/// threshold on, and in proportion below.
pub open spec fn exact_decay(state: ControllerState, demand: real) -> real {
    held(demand / value(state.params.util_decay_threshold), 0 as real, 1 as real)
}

/// The answer to a frame as a real number: the gain times the nanoseconds by which the frame
/// missed a second, decayed where it was late.
pub open spec fn exact_unheld(state: ControllerState, frame: nat, demand: real) -> real {
    let gain = value(state.params.kp);
    let miss = frame as real - 1_000_000_000 as real;
    if frame > 1_000_000_000 {
        miss * gain * exact_decay(state, demand)
    } else {
        miss * gain
    }
}

/// That answer, held to the greatest step either way.
pub open spec fn exact_answer(state: ControllerState, frame: nat, demand: real) -> real {
    held(exact_unheld(state, frame, demand), -greatest_step(state), greatest_step(state))
}

/// The time by which a frame missed a second, times the gain.
proof fn lemma_error_value(state: ControllerState, frame: nat)
    requires
        answers(state),
        frame <= MAX_NANOS,
    ensures
        ({
            let error = frame_error(state, frame, 1_000_000_000);
            let gain = value(state.params.kp);
            let all = (frame as real + 1_000_000_000 as real) * gain;
            &&& error.finite()
            &&& within(
                value(error),
                (frame as real - 1_000_000_000 as real) * gain,
                5 as real * (rounding() * all) + tiny(),
            )
            &&& frame <= 1_000_000_000 ==> value(error) <= 0 as real
            &&& 0 as real <= all <= 0x1_0000_0000_0000_0000_0000_0000_0000_0000int as real
            &&& magnitude_of((frame as real - 1_000_000_000 as real) * gain) <= all
        }),
{
    let gain = state.params.kp;
    let k = value(gain);
    let r = rounding();
    let g = 1_000_000_000 as real;
    let f = frame as real;
    let w = f + g;
    let miss = f - g;
    let taken = integer(frame as int);
    let second = integer(1_000_000_000);
    lemma_vast();
    lemma_integer_value(frame as int);
    lemma_integer_value(1_000_000_000);
    lemma_integer_value(0);
    let v = value(taken);
    lemma_share(f, w);
    lemma_share(magnitude_of(v - g), 2 as real * w);
    assert(r * (2 as real * w) == 2 as real * (r * w)) by (nonlinear_arith);
    let gap = difference(taken, second);
    lemma_difference_value(taken, second);
    let a = value(gap);
    assert(within(a, miss, 3 as real * (r * w)));
    let all = w * k;
    assert(0 as real <= all <= 0x1_0000_0000_0000_0000_0000_0000_0000_0000int as real && miss * k
        <= all && -(miss * k) <= all) by (nonlinear_arith)
        requires
            all == w * k,
            0 as real <= k <= 0x1_0000_0000 as real,
            0 as real <= w <= 0x1_0000_0000_0000_0000_0000_0000 as real,
            miss <= w,
            -miss <= w,
    ;
    lemma_product_apart(a, miss, 3 as real * (r * w), k, k, 0 as real, k);
    let p = a * k;
    assert(3 as real * (r * w) * k == 3 as real * (r * all) && magnitude_of(miss) * 0 as real
        == 0 as real) by (nonlinear_arith)
        requires
            all == w * k,
    ;
    lemma_share(all, all);
    lemma_share(magnitude_of(p), 2 as real * all);
    assert(r * (2 as real * all) == 2 as real * (r * all)) by (nonlinear_arith);
    lemma_product_value(gap, gain);
    if frame <= 1_000_000_000 {
        lemma_share(magnitude_of(miss), magnitude_of(miss));
        assert(a <= 0 as real);
        lemma_value_order(gap, integer(0));
        lemma_product_monotone(gap, gap, gain);
        lemma_value_order(product(gap, gain), integer(0));
        lemma_value_order(integer(0), gap);
    }
}

/// What is left of the answer at a demand.
proof fn lemma_decay_value(state: ControllerState, demand: Binary64)
    requires
        answers(state),
        demand.finite(),
        0 as real <= value(demand) <= 1 as real,
    ensures
        ({
            let factor = clamped(
                quotient(demand, state.params.util_decay_threshold),
                integer(0),
                integer(1),
            );
            &&& factor.finite()
            &&& 0 as real <= value(factor) <= 1 as real
            &&& within(value(factor), exact_decay(state, value(demand)), 3 as real * rounding())
            &&& 0 as real <= exact_decay(state, value(demand)) <= 1 as real
        }),
{
    let threshold = state.params.util_decay_threshold;
    let h = value(threshold);
    let d = value(demand);
    let r = rounding();
    let q = d / h;
    let big = 0x1_0000_0000_0000_0000 as real;
    lemma_tiny();
    lemma_vast();
    lemma_integer_value(0);
    lemma_integer_value(1);
    assert(0 as real <= q <= big) by (nonlinear_arith)
        requires
            q == d / h,
            0 as real <= d <= 1 as real,
            h >= r,
            r == 1 as real / 0x20_0000_0000_0000 as real,
            big == 0x1_0000_0000_0000_0000 as real,
    ;
    let share = quotient(demand, threshold);
    lemma_quotient_value(demand, threshold);
    lemma_share(q, q);
    lemma_clamped_value(share, integer(0), integer(1));
    if q <= 2 as real {
        lemma_share(q, 2 as real);
        lemma_held_apart(value(share), q, 0 as real, 1 as real, 3 as real * r);
    }
}

/// The proportional answer.
proof fn lemma_unheld_value(state: ControllerState, frame: nat, demand: Binary64)
    requires
        answers(state),
        frame <= MAX_NANOS,
        demand.finite(),
        0 as real <= value(demand) <= 1 as real,
    ensures
        proportional_answer(state, frame, 1_000_000_000, demand).finite(),
        within(
            value(proportional_answer(state, frame, 1_000_000_000, demand)),
            exact_unheld(state, frame, value(demand)),
            10 as real * (rounding() * ((frame as real + 1_000_000_000 as real) * value(
                state.params.kp,
            ))) + rounding() + tiny() + tiny(),
        ),
{
    let r = rounding();
    let y = tiny();
    let k = value(state.params.kp);
    let miss = frame as real - 1_000_000_000 as real;
    let all = (frame as real + 1_000_000_000 as real) * k;
    let error = frame_error(state, frame, 1_000_000_000);
    let e = value(error);
    lemma_vast();
    lemma_integer_value(0);
    lemma_error_value(state, frame);
    lemma_decay_value(state, demand);
    lemma_value_order(integer(0), error);
    lemma_share(all, all);
    let g = exact_decay(state, value(demand));
    let x = miss * k;
    if e > 0 as real {
        let factor = clamped(
            quotient(demand, state.params.util_decay_threshold),
            integer(0),
            integer(1),
        );
        let c = value(factor);
        let p = e * c;
        let de = 5 as real * (r * all) + y;
        let mx = magnitude_of(x);
        lemma_product_apart(e, x, de, c, g, 3 as real * r, 1 as real);
        assert(de * 1 as real == de && mx * (3 as real * r) <= 3 as real * (r * all))
            by (nonlinear_arith)
            requires
                mx <= all,
                r >= 0 as real,
        ;
        let m = magnitude_of(p);
        assert(m <= 2 as real * all + 1 as real) by (nonlinear_arith)
            requires
                p == e * c,
                m == p || m == -p,
                0 as real <= e <= 2 as real * all + 1 as real,
                0 as real <= c <= 1 as real,
        ;
        lemma_share(m, 2 as real * all + 1 as real);
        assert(r * (2 as real * all + 1 as real) == 2 as real * (r * all) + r)
            by (nonlinear_arith);
        lemma_product_value(error, factor);
    } else if frame > 1_000_000_000 {
        assert(0 as real <= x * g <= x) by (nonlinear_arith)
            requires
                x == miss * k,
                miss >= 0 as real,
                k >= 0 as real,
                0 as real <= g <= 1 as real,
        ;
    }
}

/// The greatest step.
proof fn lemma_max_step_value(state: ControllerState)
    requires
        answers(state),
    ensures
        max_step(state).finite(),
        value(max_step(state)) >= 0 as real,
        greatest_step(state) >= 0 as real,
        within(
            value(max_step(state)),
            greatest_step(state),
            3 as real * (rounding() * greatest_step(state)) + tiny(),
        ),
{
    let r = rounding();
    let n = state.max_freq as real;
    let top = integer(state.max_freq as int);
    let ratio = state.params.max_step_ratio;
    let u = value(ratio);
    let limit = greatest_step(state);
    lemma_vast();
    lemma_integer_value(0);
    lemma_integer_value(state.max_freq as int);
    lemma_integer_monotone(0, state.max_freq as int);
    lemma_share(n, n);
    lemma_product_apart(value(top), n, r * n, u, u, 0 as real, u);
    assert(r * n * u == r * limit && limit >= 0 as real && n * 0 as real == 0 as real)
        by (nonlinear_arith)
        requires
            limit == n * u,
            n >= 0 as real,
            u >= 0 as real,
    ;
    lemma_share(limit, limit);
    lemma_share(magnitude_of(value(top) * u), 2 as real * limit);
    assert(r * (2 as real * limit) == 2 as real * (r * limit)) by (nonlinear_arith);
    lemma_product_value(top, ratio);
    lemma_value_order(integer(0), top);
    lemma_product_monotone(top, top, ratio);
    lemma_value_order(integer(0), max_step(state));
}

/// Away from the target, a step answers the newest frame in proportion: by the gain times the time
/// by which it missed, up or down, where a late frame is answered less below the decay threshold,
/// in proportion to the demand, and never by more than the greatest step.
pub proof fn lemma_raw_value(
    buffer: Buffer,
    margin: MarginFps,
    state: ControllerState,
    target_fps: u32,
    input: ControlInput,
)
    requires
        answers(state),
        input.demand.finite(),
        control_step(buffer, margin, state, target_fps, input).frame <= MAX_NANOS,
    ensures
        ({
            let step = control_step(buffer, margin, state, target_fps, input);
            within(
                step.raw as real,
                exact_answer(state, step.frame, held(value(input.demand), 0 as real, 1 as real)),
                1 as real + 16 as real * (rounding() * ((step.frame as real
                    + 1_000_000_000 as real) * value(state.params.kp) + greatest_step(state)
                    + 1 as real)),
            )
        }),
{
    let frame = control_step(buffer, margin, state, target_fps, input).frame;
    let demand = clamped(input.demand, integer(0), integer(1));
    let r = rounding();
    let all = (frame as real + 1_000_000_000 as real) * value(state.params.kp);
    let limit = greatest_step(state);
    let most = max_step(state);
    let answer = proportional_answer(state, frame, 1_000_000_000, demand);
    lemma_integer_value(0);
    lemma_integer_value(1);
    lemma_clamped_value(input.demand, integer(0), integer(1));
    let exact = exact_unheld(state, frame, value(demand));
    lemma_error_value(state, frame);
    lemma_unheld_value(state, frame, demand);
    lemma_max_step_value(state);
    lemma_share(limit, limit);
    lemma_share(all, all);
    lemma_opposite_value(most);
    lemma_clamped_value(answer, opposite(most), most);
    let bound = 16 as real * (r * (all + limit + 1 as real));
    assert(bound == 16 as real * (r * all) + 16 as real * (r * limit) + 16 as real * r)
        by (nonlinear_arith)
        requires
            bound == 16 as real * (r * (all + limit + 1 as real)),
    ;
    let got = clamped(answer, opposite(most), most);
    lemma_held_to_limits(value(answer), exact, value(most), limit, bound);
    lemma_whole_apart(got, held(exact, -limit, limit), bound);
}

/// Holding numbers to limits brings them no further apart than they and the limits are.
proof fn lemma_held_to_limits(x: real, y: real, m: real, n: real, d: real)
    requires
        m >= 0 as real,
        n >= 0 as real,
        magnitude_of(x - y) + magnitude_of(m - n) <= d,
    ensures
        within(held(x, -m, m), held(y, -n, n), d),
{
}

/// The marks that the frame rate is held against lie below the target that the temperature allows:
/// the rate is in order from the margin below it, the wider one where it was in order before, and
/// frames stutter from two frames per second below it, up to rounding.
pub proof fn lemma_rate_marks(
    buffer: Buffer,
    margin: MarginFps,
    state: ControllerState,
    target_fps: u32,
    input: ControlInput,
)
    requires
        input.target_fps_offset_thermal.finite(),
        magnitude_of(value(input.target_fps_offset_thermal)) <= vast() / 2 as real,
        buffer.frametime_state.current_fps_long.finite(),
        state.params.fps_ok_margin.finite(),
        state.params.fps_ok_recover_margin.finite(),
        0 as real <= value(state.params.fps_ok_margin) <= 0x1_0000_0000 as real,
        0 as real <= value(state.params.fps_ok_recover_margin) <= 0x1_0000_0000 as real,
    ensures
        ({
            let step = control_step(buffer, margin, state, target_fps, input);
            let after = state_after(state, step, input.now);
            let rate = value(buffer.frametime_state.current_fps_long);
            let lowered = held(
                target_fps as real + value(input.target_fps_offset_thermal),
                0 as real,
                target_fps as real,
            );
            let width = value(
                if state.was_fps_ok {
                    state.params.fps_ok_margin
                } else {
                    state.params.fps_ok_recover_margin
                },
            );
            let slack = 4 as real * (rounding() * (target_fps as real + width + 2 as real));
            &&& rate >= lowered - width + slack ==> after.was_fps_ok
            &&& rate < lowered - width - slack ==> !after.was_fps_ok
            &&& rate < lowered - 2 as real - slack ==> step.janked
            &&& rate >= lowered - 2 as real + slack ==> !step.janked
        }),
{
    let n = target_fps as real;
    let r = rounding();
    let thermal = thermal_target(target_fps, input.target_fps_offset_thermal);
    let mark = if state.was_fps_ok {
        state.params.fps_ok_margin
    } else {
        state.params.fps_ok_recover_margin
    };
    let width = value(mark);
    let rate = buffer.frametime_state.current_fps_long;
    let two = integer(2);
    lemma_vast();
    lemma_thermal_target_value(target_fps, input.target_fps_offset_thermal);
    lemma_integer_value(2);
    let t = value(thermal);
    let all = n + width + 2 as real;
    lemma_share(n, all);
    lemma_share(magnitude_of(t - width), all);
    lemma_share(magnitude_of(t - 2 as real), all);
    lemma_difference_value(thermal, mark);
    lemma_difference_value(thermal, two);
    lemma_value_order(difference(thermal, mark), rate);
    lemma_value_order(rate, difference(thermal, two));
}

/// Whether a step follows the demand: while frames come in time and the rate is in order, and not
/// otherwise, but a mode is kept until the residency time, in milliseconds, is over.
pub proof fn lemma_mode_value(
    buffer: Buffer,
    margin: MarginFps,
    state: ControllerState,
    target_fps: u32,
    input: ControlInput,
)
    ensures
        ({
            let step = control_step(buffer, margin, state, target_fps, input);
            let after = state_after(state, step, input.now);
            let kept = elapsed(state.last_mode_switch, input.now) < state.params.mode_residency_ms
                * 1_000_000;
            let in_order = step.frame <= 1_000_000_000 && after.was_fps_ok;
            &&& kept ==> after.last_control_mode == state.last_control_mode
            &&& !kept ==> after.last_control_mode == in_order
            &&& !after.last_control_mode ==> step.control == step.raw
        }),
{
}

} // verus!
