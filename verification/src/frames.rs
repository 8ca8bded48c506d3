//! What the averages over frames and the frame rates amount to.

use crate::binary64::{integer, nanos_of_seconds, product, quotient, Binary64, MAX_NANOS};
use crate::buffer::{
    average_frametime, frame_rate, is_new, total_time, Buffer, BufferWorkingState, FrametimeState,
};
use crate::config::TargetFps;
use crate::control::newest_frame;
use crate::exactness::{
    lemma_close_integer, lemma_close_quotient, lemma_close_rounded_small, lemma_integer_value,
    lemma_nanos_value, lemma_product_value, lemma_quotient_value, lemma_seconds_value, lemma_tiny,
    lemma_value_order, lemma_vast, magnitude_of, rounding, tiny, value, within,
};
use crate::ordering::{lemma_integer_exact, lemma_product_monotone, lemma_with_sign};
use crate::timing::{in_seconds, stretched_seconds, stretches};
use vstd::arithmetic::div_mod::lemma_fundamental_div_mod;
use vstd::arithmetic::power2::lemma_pow2_pos;
use vstd::prelude::*;

verus! {

/// A frame that comes adds its own time to that of the newest ones.
pub proof fn lemma_total_time_of_new_frame(frame: u128, frames: Seq<u128>, n: nat)
    requires
        n <= frames.len(),
    ensures
        total_time(seq![frame] + frames, n + 1) == frame + total_time(frames, n),
        total_time(frames, 0) == 0,
    decreases n,
{
    let all = seq![frame] + frames;
    if n > 0 {
        lemma_total_time_of_new_frame(frame, frames, (n - 1) as nat);
        assert(all[n as int] == frames[n - 1]);
    } else {
        assert(all[0] == frame);
        assert(total_time(all, 0) == 0);
    }
}

/// An average over `n` frames, times `n`, is the time that they took together with the time since
/// the last of them, short of one nanosecond for each frame. The longest span stands for anything
/// longer. There is no average over no frames.
pub proof fn lemma_average_times_count(state: FrametimeState, it_takes: Option<usize>, n: nat)
    requires
        match it_takes {
            Some(k) => n == (if k <= state.frametimes@.len() {
                k as nat
            } else {
                state.frametimes@.len()
            }),
            None => n == state.frametimes@.len(),
        },
    ensures
        ({
            let together = total_time(state.frametimes@, n) + state.additional_frametime;
            let average = average_frametime(state, it_takes);
            &&& n == 0 ==> average == 0
            &&& n > 0 && together <= MAX_NANOS ==> average * n <= together < (average + 1) * n
            &&& n > 0 && together >= MAX_NANOS ==> average * n <= MAX_NANOS < (average + 1) * n
        }),
{
    let together = total_time(state.frametimes@, n) + state.additional_frametime;
    if n > 0 {
        let capped: int = if together > MAX_NANOS {
            MAX_NANOS as int
        } else {
            together
        };
        lemma_fundamental_div_mod(capped, n as int);
        let average = average_frametime(state, it_takes);
        assert(average == capped / n as int);
        assert(n * average == average * n && (average + 1) * n == average * n + n)
            by (nonlinear_arith);
    }
}

/// The frame rate of frames of some length is how many of them a second has room for, up to
/// rounding; frames of no length have no finite rate.
pub proof fn lemma_frame_rate_value(frametime: nat)
    requires
        frametime <= MAX_NANOS,
    ensures
        frametime == 0 ==> frame_rate(frametime).infinite() && !frame_rate(frametime).negative(),
        frametime > 0 ==> {
            let exact = 1_000_000_000 as real / frametime as real;
            &&& frame_rate(frametime).finite()
            &&& within(
                value(frame_rate(frametime)),
                exact,
                (10 as real) * rounding() * exact + tiny(),
            )
        },
{
    let time = in_seconds(frametime);
    let one = integer(1);
    let r = rounding();
    lemma_tiny();
    lemma_vast();
    lemma_seconds_value(frametime);
    lemma_close_integer(1);
    lemma_integer_exact(1);
    lemma_pow2_pos(1074);
    lemma_value_order(one, time);
    lemma_value_order(time, time);
    if frametime == 0 {
        lemma_with_sign(false, 0x7FF0_0000_0000_0000);
        assert(time.magnitude() == 0);
        assert(one.magnitude() != 0) by {
            lemma_value_order(one, one);
        }
    } else {
        let f = frametime as real;
        let s = f / 1_000_000_000 as real;
        assert(s >= 1 as real / 1_000_000_000 as real);
        lemma_close_quotient(value(one), 1 as real, 0, value(time), s, 6);
        let v = 1 as real / s;
        assert(v == 1_000_000_000 as real / f) by (nonlinear_arith)
            requires
                v == 1 as real / s,
                s == f / 1_000_000_000 as real,
                f >= 1 as real,
        ;
        assert(0 as real <= v && v <= 1_000_000_000 as real) by (nonlinear_arith)
            requires
                v == 1_000_000_000 as real / f,
                f >= 1 as real,
        ;
        assert((7 as real) * r * v <= v && (9 as real) * r * v <= (10 as real) * r * v)
            by (nonlinear_arith)
            requires
                r > 0 as real,
                r <= 1 as real / 1_000_000_000_000_000 as real,
                v >= 0 as real,
        ;
        let p = value(one) / value(time);
        lemma_quotient_value(one, time);
        lemma_close_rounded_small(value(quotient(one, time)), p, v, 7);
    }
}

/// The newest frame takes the longer of its own time and the time since it.
pub proof fn lemma_newest_frame(buffer: Buffer)
    ensures
        ({
            let frames = buffer.frametime_state.frametimes@;
            let since = buffer.frametime_state.additional_frametime;
            let newest = newest_frame(buffer);
            &&& newest >= since
            &&& frames.len() > 0 ==> newest >= frames[0] && (newest == since || newest == frames[0])
            &&& frames.len() == 0 ==> newest == since
        }),
{
}

/// A buffer that no frame has come to yet holds nothing: no frames, no rates, no target, and
/// nothing that would keep it from finding one.
pub proof fn lemma_new_buffer(buffer: Buffer, target_fps: TargetFps, pid: i32, pkg: String)
    requires
        is_new(buffer, target_fps, pid, pkg),
    ensures
        ({
            let frames = buffer.frametime_state;
            let targets = buffer.target_fps_state;
            &&& buffer.package_info.pid == pid && buffer.package_info.pkg == pkg
            &&& targets.target_fps_config == target_fps
            &&& targets.target_fps is None && targets.last_target is None
            &&& targets.cooldown_remaining == 0 && targets.upgrade_attempts == 0
            &&& frames.frametimes@.len() == 0 && newest_frame(buffer) == 0
            &&& value(frames.current_fps_long) == 0 as real
            &&& value(frames.current_fps_short) == 0 as real
            &&& frames.avg_time_long == 0 && frames.avg_time_short == 0
            &&& buffer.state.working_state == BufferWorkingState::Unusable
        }),
{
    lemma_integer_value(0);
}

/// A span times a factor that is not negative is a span again, where it is well within the longest
/// one, and is none where it is well beyond that, or is negative by a nanosecond. It is right up to
/// rounding and half a nanosecond.
pub proof fn lemma_stretched_value(span: nat, factor: Binary64)
    requires
        span <= MAX_NANOS,
        factor.finite(),
        magnitude_of(value(factor)) <= 0x1_0000_0000_0000_0000 as real,
    ensures
        ({
            let exact = value(factor) * span as real;
            let got = nanos_of_seconds(stretched_seconds(span, factor)) as real;
            &&& value(factor) >= 0 as real && 2 as real * exact + 2 as real <= MAX_NANOS as real
                ==> stretches(span, factor)
            &&& exact >= 2 as real * MAX_NANOS as real ==> !stretches(span, factor)
            &&& exact <= -(1 as real) ==> !stretches(span, factor)
            &&& value(factor) >= 0 as real ==> within(
                got,
                exact,
                1 as real + 8 as real * (rounding() * exact),
            )
        }),
{
    let f = value(factor);
    let m = magnitude_of(f);
    let g = 1_000_000_000 as real;
    let n = span as real;
    let exact = f * n;
    let size = m * n;
    let secs = in_seconds(span);
    let s = value(secs);
    let t = n / g;
    let r = rounding();
    let y = tiny();
    lemma_tiny();
    lemma_vast();
    lemma_seconds_value(span);
    lemma_integer_value(0);
    let got = product(factor, secs);
    let p = f * s;
    let mp = magnitude_of(p);
    assert(t >= 0 as real && t * g == n) by (nonlinear_arith)
        requires
            t == n / g,
            n >= 0 as real,
            g == 1_000_000_000 as real,
    ;
    let d = 6 as real * r * t;
    assert(0 as real <= d <= t && d * g == 6 as real * (r * n)) by (nonlinear_arith)
        requires
            d == 6 as real * r * t,
            t >= 0 as real,
            t * g == n,
            r > 0 as real,
            r <= 1 as real / 1_000_000_000_000_000 as real,
    ;
    assert(m * n >= 0 as real && (f >= 0 as real ==> exact == size) && (f <= 0 as real ==> exact
        == -size)) by (nonlinear_arith)
        requires
            exact == f * n,
            size == m * n,
            m >= 0 as real,
            n >= 0 as real,
            f >= 0 as real ==> m == f,
            f <= 0 as real ==> m == -f,
    ;
    let e = r * size;
    assert(p * g - exact <= 6 as real * e && exact - p * g <= 6 as real * e && mp * g <= 2 as real
        * size && (f >= 0 as real ==> p >= 0 as real) && (f <= 0 as real ==> p <= 0 as real))
        by (nonlinear_arith)
        requires
            p == f * s,
            exact == f * n,
            size == m * n,
            e == r * size,
            s - t <= d,
            t - s <= d,
            s >= 0 as real,
            s <= 2 as real * t,
            t * g == n,
            d * g == 6 as real * (r * n),
            g == 1_000_000_000 as real,
            m >= 0 as real,
            mp == p || mp == -p,
            f >= 0 as real ==> m == f,
            f <= 0 as real ==> m == -f,
    ;
    let big = 0x1_0000_0000_0000_0000_0000_0000_0000_0000int as real;
    assert(2 as real * size <= big * big && 0 as real <= e <= size / 1_000_000 as real)
        by (nonlinear_arith)
        requires
            size == m * n,
            0 as real <= m <= 0x1_0000_0000_0000_0000 as real,
            0 as real <= n <= MAX_NANOS as real,
            e == r * size,
            r > 0 as real,
            r <= 1 as real / 1_000_000_000_000_000 as real,
            big == 0x1_0000_0000_0000_0000_0000_0000_0000_0000int as real,
    ;
    lemma_product_value(factor, secs);
    let v = value(got);
    let x = r * mp;
    assert(x * g <= 2 as real * e && y * g <= 1 as real / 1_000 as real && x >= 0 as real)
        by (nonlinear_arith)
        requires
            x == r * mp,
            mp >= 0 as real,
            mp * g <= 2 as real * size,
            e == r * size,
            y <= r * r,
            r > 0 as real,
            r <= 1 as real / 1_000_000_000_000_000 as real,
            g == 1_000_000_000 as real,
    ;
    assert(within(v * g, exact, 8 as real * e + 1 as real / 1_000 as real)) by {
        assert(v * g - p * g <= (x + y) * g && p * g - v * g <= (x + y) * g && (x + y) * g == x * g
            + y * g) by (nonlinear_arith)
            requires
                v - p <= x + y,
                p - v <= x + y,
                g == 1_000_000_000 as real,
        ;
    }
    lemma_value_order(got, got);
    if f >= 0 as real {
        assert(p >= 0 as real);
        if factor.order() >= 0 {
            lemma_product_monotone(factor, factor, secs);
        }
        lemma_value_order(factor, factor);
        assert(v >= 0 as real);
        lemma_nanos_value(got);
    } else if exact <= -(1 as real) {
        assert(v * g < 0 as real);
        assert(v < 0 as real) by (nonlinear_arith)
            requires
                v * g < 0 as real,
                g == 1_000_000_000 as real,
        ;
    }
}

} // verus!
