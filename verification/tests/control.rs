use fas_rs::binary64::Binary64;
use fas_rs::buffer::Buffer;
use fas_rs::config::{Config, ConfigData, MarginFps, Mode, ModeConfig, TargetFps};
use fas_rs::control::{calculate_control, is_control_defined, ControlInput, ControllerState};
use fas_rs::params::ControllerParams;
use fas_rs::timing::Moment;
use std::time::Duration;

const SECOND: i128 = 1_000_000_000;

fn f(x: Binary64) -> f64 {
    f64::from_bits(x.to_bits())
}

fn b(x: f64) -> Binary64 {
    Binary64::from_bits(x.to_bits())
}

fn mode(margin_fps: MarginFps) -> ModeConfig {
    ModeConfig { margin_fps, target_core_temperature: 90 }
}

fn config(base: f64) -> Config {
    Config::new(ConfigData::new(
        mode(MarginFps::BaseOnly(b(3.0))),
        mode(MarginFps::BaseOnly(b(base))),
        mode(MarginFps::advanced(b(1.0), vec![("120".to_owned(), b(0.5))])),
        mode(MarginFps::BaseOnly(b(0.0))),
        None,
    ))
}

fn state() -> ControllerState {
    ControllerState {
        params: ControllerParams::default(),
        target_fps_offset: b(0.0),
        usage_sample_timer: Moment { nanos: 0 },
        is_janked: false,
        max_freq: 2_000_000,
        was_fps_ok: false,
        last_control_mode: false,
        last_mode_switch: Moment { nanos: -10 * SECOND },
    }
}

fn game(target: u32, frametime: u128, fps: f64) -> Buffer {
    let mut buffer = Buffer::new(TargetFps::Value(target), 1, "com.game".to_owned());
    buffer.target_fps_state.target_fps = Some(target);
    for _ in 0..60 {
        buffer.frametime_state.frametimes.push_front(frametime);
    }
    buffer.frametime_state.current_fps_long = b(fps);
    buffer
}

fn input(demand: f64, nanos: i128) -> ControlInput {
    ControlInput {
        target_fps_offset_thermal: b(0.0),
        demand: b(demand),
        util_max: b(0.6),
        now: Moment { nanos },
    }
}

// A game at 60 frames per second whose frames come in time.
fn smooth() -> Buffer {
    game(60, 16_000_000, 60.0)
}

#[test]
fn too_few_frames_or_no_target_give_nothing() {
    let c = config(0.0);
    let mut s = state();
    let mut few = smooth();
    few.frametime_state.frametimes.pop_back();
    assert!(calculate_control(&few, &c, Mode::Balance, &mut s, &input(0.5, 0)).is_none());
    let mut none = smooth();
    none.target_fps_state.target_fps = None;
    assert!(calculate_control(&none, &c, Mode::Balance, &mut s, &input(0.5, 0)).is_none());
    assert!(!s.was_fps_ok);
}

#[test]
fn a_low_demand_lowers_the_frequency_in_proportion() {
    let c = config(0.0);
    for (demand, step) in [
        (0.0, (2_000_000.0 * (0.05 + 1.0 * 0.15)) as isize),
        (0.3, (2_000_000.0 * (0.05 + (0.60 - 0.3) / 0.60 * 0.15)) as isize),
        (0.59, (2_000_000.0 * (0.05 + (0.60 - 0.59) / 0.60 * 0.15)) as isize),
    ] {
        let mut s = state();
        let r = calculate_control(&smooth(), &c, Mode::Balance, &mut s, &input(demand, 0));
        assert_eq!(r, Some((-step, false)), "{demand}");
        assert!(s.last_control_mode && s.was_fps_ok);
        assert_eq!(s.last_mode_switch, Moment { nanos: 0 });
        assert!((100_000..=400_000).contains(&step));
    }
}

#[test]
fn a_demand_between_the_marks_keeps_the_frequency() {
    let c = config(0.0);
    for demand in [0.60, 0.7, 0.85] {
        let r = calculate_control(&smooth(), &c, Mode::Balance, &mut state(), &input(demand, 0));
        assert_eq!(r, Some((0, false)), "{demand}");
    }
}

#[test]
fn a_high_demand_raises_it_by_a_fiftieth_at_most() {
    let c = config(0.0);
    // The mode is kept for its residency time although a frame was missed.
    let mut s = state();
    s.last_control_mode = true;
    s.was_fps_ok = true;
    s.last_mode_switch = Moment { nanos: 0 };
    let missed = game(60, 30_000_000, 60.0);
    let r = calculate_control(&missed, &c, Mode::Balance, &mut s, &input(0.9, 100_000_000));
    assert_eq!(r, Some((40_000, false)));
    // In time, the proportional answer is lower still.
    let r = calculate_control(&smooth(), &c, Mode::Balance, &mut s, &input(0.9, 100_000_000));
    assert_eq!(r, Some((((16_000_000.0 * 60.0 - 1e9) * 0.0003) as isize, false)));
}

#[test]
fn a_missed_frame_is_answered_in_proportion() {
    let c = config(0.0);
    let missed = game(60, 17_000_000, 60.0);
    let mut s = state();
    let r = calculate_control(&missed, &c, Mode::Balance, &mut s, &input(0.5, 0));
    let error: f64 = (1_020_000_000.0 - 1e9) * 0.0003;
    assert_eq!(r, Some((error as isize, false)));
    // A demand below the decay threshold weakens the answer.
    let r = calculate_control(&missed, &c, Mode::Balance, &mut state(), &input(0.15, 0));
    assert_eq!(r, Some(((error * (0.15 / 0.3)) as isize, false)));
    assert!(!s.last_control_mode);
}

#[test]
fn the_answer_is_held_to_the_greatest_step() {
    let c = config(0.0);
    let slow = game(60, 900_000_000, 60.0);
    let r = calculate_control(&slow, &c, Mode::Balance, &mut state(), &input(1.0, 0));
    assert_eq!(r, Some((300_000, false)));
    let fast = game(60, 0, 20.0);
    let r = calculate_control(&fast, &c, Mode::Balance, &mut state(), &input(1.0, 0));
    assert_eq!(r, Some((-300_000, true)));
}

#[test]
fn the_verdict_on_the_frame_rate_has_hysteresis() {
    let c = config(0.0);
    for (was, fps, ok) in [
        (true, 55.0, true),
        (true, 54.9, false),
        (false, 57.9, false),
        (false, 58.0, true),
        (true, 57.0, true),
        (false, 57.0, false),
    ] {
        let mut s = state();
        s.was_fps_ok = was;
        let buffer = game(60, 16_000_000, fps);
        let r = calculate_control(&buffer, &c, Mode::Balance, &mut s, &input(0.7, 0));
        assert_eq!(s.was_fps_ok, ok, "{was} {fps}");
        assert_eq!(s.last_control_mode, ok);
        assert_eq!(r.map(|x| x.1), Some(fps < 58.0));
    }
}

#[test]
fn a_mode_is_kept_for_half_a_second() {
    let c = config(0.0);
    let mut s = state();
    calculate_control(&smooth(), &c, Mode::Balance, &mut s, &input(0.7, 0));
    assert!(s.last_control_mode);
    let missed = game(60, 30_000_000, 60.0);
    calculate_control(&missed, &c, Mode::Balance, &mut s, &input(0.7, 499_999_999));
    assert!(s.last_control_mode);
    assert_eq!(s.last_mode_switch, Moment { nanos: 0 });
    calculate_control(&missed, &c, Mode::Balance, &mut s, &input(0.7, 500_000_000));
    assert!(!s.last_control_mode);
    assert_eq!(s.last_mode_switch, Moment { nanos: 500_000_000 });
}

#[test]
fn the_offset_follows_the_usage_once_a_second() {
    let c = config(0.0);
    let mut s = state();
    let at = |util: f64, nanos: i128, s: &mut ControllerState| {
        let mut i = input(0.7, nanos);
        i.util_max = b(util);
        calculate_control(&smooth(), &c, Mode::Balance, s, &i);
        f(s.target_fps_offset)
    };
    assert_eq!(at(0.5, 999_999_999, &mut s), 0.0);
    assert_eq!(at(0.5, SECOND, &mut s), -0.1);
    assert_eq!(at(0.5, SECOND + 5, &mut s), -0.1);
    assert_eq!(at(0.55, 2 * SECOND, &mut s), -0.1 - 0.1);
    assert_eq!(at(0.6, 3 * SECOND, &mut s), -0.1 - 0.1);
    assert_eq!(at(0.65, 4 * SECOND, &mut s), -0.1 - 0.1 + 0.1);
    assert_eq!(at(0.1, 5 * SECOND, &mut s), 0.0);
    assert_eq!(at(0.9, 6 * SECOND, &mut s), 0.0);
    for k in 7..60 {
        at(0.3, k * SECOND, &mut s);
    }
    assert_eq!(f(s.target_fps_offset), -3.0);
}

#[test]
fn the_margin_depends_on_mode_and_target() {
    // A frame that takes a whole frame at 118 per second is in time only with enough margin.
    let frame = 1_000_000_000 / 118;
    let c = config(0.0);
    for (mode, in_time) in [
        (Mode::Powersave, true),
        (Mode::Balance, false),
        (Mode::Performance, false),
        (Mode::Fast, false),
    ] {
        let mut s = state();
        let buffer = game(120, frame, 120.0);
        calculate_control(&buffer, &c, mode, &mut s, &input(0.7, 0));
        assert_eq!(s.last_control_mode, in_time, "{mode:?}");
    }
    // Without an override for the target, the margin is in proportion to it.
    let mut s = state();
    let buffer = game(60, 1_000_000_000 / 59 - 10, 60.0);
    calculate_control(&buffer, &c, Mode::Performance, &mut s, &input(0.7, 0));
    assert!(s.last_control_mode);
}

#[test]
fn a_long_wait_counts_as_the_newest_frame() {
    let c = config(0.0);
    let mut waiting = smooth();
    waiting.frametime_state.additional_frametime = 100_000_000;
    let r = calculate_control(&waiting, &c, Mode::Balance, &mut state(), &input(1.0, 0));
    assert_eq!(r, Some((300_000, false)));
    waiting.frametime_state.additional_frametime = 1;
    let mut s = state();
    calculate_control(&waiting, &c, Mode::Balance, &mut s, &input(1.0, 0));
    assert!(s.last_control_mode);
}

#[test]
fn a_step_down_that_is_not_taken_need_not_fit() {
    let c = config(0.0);
    for low in [0.0, 5e-324] {
        let mut s = state();
        s.params.demand_low = b(low);
        assert!(is_control_defined(&smooth(), &c, Mode::Balance, &s, 60, &input(1.0, 0)));
        let r = calculate_control(&smooth(), &c, Mode::Balance, &mut s, &input(0.5, 0));
        assert_eq!(r, Some((0, false)));
    }
    // A share that cannot be negated matters only where it is taken.
    let mut s = state();
    s.params.demand_step_base = b(f64::NEG_INFINITY);
    assert!(is_control_defined(&smooth(), &c, Mode::Balance, &s, 60, &input(0.7, 0)));
    assert!(!is_control_defined(&smooth(), &c, Mode::Balance, &s, 60, &input(0.5, 0)));
    let missed = game(60, 30_000_000, 60.0);
    assert!(is_control_defined(&missed, &c, Mode::Balance, &s, 60, &input(0.5, 0)));
}

#[test]
fn undefined_steps_are_told_apart() {
    let c = config(0.0);
    let s = state();
    let defined = |c: &Config, s: &ControllerState, i: &ControlInput| {
        is_control_defined(&smooth(), c, Mode::Balance, s, 60, i)
    };
    assert!(defined(&c, &s, &input(0.5, 0)));
    assert!(!defined(&config(-1.0), &s, &input(0.5, 0)));
    // The target is below its margin.
    assert!(!defined(&config(80.0), &s, &input(0.5, 0)));
    let mut backwards = s;
    backwards.max_freq = -1;
    assert!(!defined(&c, &backwards, &input(0.5, 0)));
    let mut nothing = s;
    nothing.params.max_step_ratio = b(f64::NAN);
    assert!(!defined(&c, &nothing, &input(0.5, 0)));
    let mut hot = input(0.5, 0);
    hot.target_fps_offset_thermal = b(f64::NAN);
    assert!(!defined(&c, &s, &hot));
}

struct Reference {
    offset: f64,
    was_fps_ok: bool,
    mode: bool,
    switched: i128,
    sampled: i128,
}

// The same step on the processor's own numbers.
fn reference_step(
    r: &mut Reference,
    p: (f64, f64, u128, f64, f64, f64),
    max_freq: isize,
    now: i128,
) -> (isize, bool) {
    let (target, margin, frame, fps, demand, util) = p;
    let demand = demand.clamp(0.0, 1.0);
    if now - r.sampled >= SECOND {
        r.sampled = now;
        if util <= 0.1 {
            r.offset = 0.0;
        } else if util <= 0.55 {
            r.offset -= 0.1;
        } else if util >= 0.65 {
            r.offset += 0.1;
        }
    }
    r.offset = r.offset.clamp(-3.0, 0.0);
    let adjusted = target + r.offset - margin;
    let last = Duration::from_nanos(frame as u64).mul_f64(adjusted);
    let error = (last.as_nanos() as f64 - 1e9) * 0.0003;
    let mut answer = error;
    if answer > 0.0 {
        answer *= (demand / 0.3).clamp(0.0, 1.0);
    }
    let most = max_freq as f64 * 0.15;
    let raw = answer.clamp(-most, most) as isize;
    let ok = fps >= target - if r.was_fps_ok { 5.0 } else { 2.0 };
    r.was_fps_ok = ok;
    let want = last <= Duration::from_secs(1) && ok;
    if want != r.mode && now - r.switched >= SECOND / 2 {
        r.switched = now;
        r.mode = want;
    }
    let control = if !r.mode {
        raw
    } else if demand < 0.60 {
        -((max_freq as f64 * (0.05 + (0.60 - demand) / 0.60 * 0.15)) as isize)
    } else if demand > 0.85 {
        raw.min((max_freq as f64 * 0.02) as isize)
    } else {
        0
    };
    (control, fps < target - 2.0)
}

#[test]
fn steps_agree_with_the_processor() {
    let c = config(2.5);
    let mut s = state();
    s.max_freq = 2_918_400;
    let mut r = Reference {
        offset: 0.0,
        was_fps_ok: false,
        mode: false,
        switched: -10 * SECOND,
        sampled: 0,
    };
    let mut seed: u64 = 0x2545_F491_4F6C_DD1D;
    let mut next = |range: f64| {
        seed ^= seed << 13;
        seed ^= seed >> 7;
        seed ^= seed << 17;
        (seed >> 11) as f64 / 9_007_199_254_740_992.0 * range
    };
    let mut now: i128 = 0;
    for k in 0..3000 {
        now += next(400_000_000.0) as i128;
        let target: u32 = [30, 60, 90, 120][k % 4];
        let frame = (next(2e9) / f64::from(target)) as u128;
        let fps = f64::from(target) - next(8.0);
        let demand = next(1.2) - 0.1;
        let util = next(1.0);
        let mut i = input(demand, now);
        i.util_max = b(util);
        let buffer = game(target, frame, fps);
        let t = f64::from(target);
        let p = (t, t / 60.0 * 2.5, frame, fps, demand, util);
        let expected = reference_step(&mut r, p, 2_918_400, now);
        assert!(is_control_defined(&buffer, &c, Mode::Balance, &s, target, &i));
        let got = calculate_control(&buffer, &c, Mode::Balance, &mut s, &i);
        assert_eq!(got, Some(expected), "step {k}");
        assert_eq!(f(s.target_fps_offset), r.offset);
        assert_eq!(s.last_control_mode, r.mode);
    }
}

#[test]
fn the_temperature_only_lowers_the_target() {
    let c = config(0.0);
    for (offset, threshold) in [(-20.0, 38.0), (5.0, 58.0), (-100.0, -2.0)] {
        for (fps, janked) in [(threshold - 0.1, true), (threshold, false)] {
            let mut i = input(0.7, 0);
            i.target_fps_offset_thermal = b(offset);
            let buffer = game(60, 1_000_000, fps);
            let r = calculate_control(&buffer, &c, Mode::Balance, &mut state(), &i);
            assert_eq!(r.map(|x| x.1), Some(janked), "{offset} {fps}");
        }
    }
}

#[test]
fn a_demand_is_held_from_zero_to_one() {
    let c = config(0.0);
    for (demand, held) in [(7.5, 1.0), (-2.0, 0.0)] {
        let (mut s, mut t) = (state(), state());
        let missed = game(60, 17_000_000, 60.0);
        let r = calculate_control(&missed, &c, Mode::Balance, &mut s, &input(demand, 0));
        assert_eq!(r, calculate_control(&missed, &c, Mode::Balance, &mut t, &input(held, 0)));
        assert_eq!(s.last_control_mode, t.last_control_mode);
    }
}

#[test]
fn the_answer_grows_with_frame_and_demand() {
    let c = config(0.0);
    let mut last = isize::MIN;
    for frame in [0, 10_000_000, 16_000_000, 17_000_000, 20_000_000, 500_000_000] {
        let buffer = game(60, frame, 10.0);
        let r = calculate_control(&buffer, &c, Mode::Balance, &mut state(), &input(0.2, 0));
        let control = r.map_or(isize::MIN, |x| x.0);
        assert!(control >= last);
        last = control;
    }
    let missed = game(60, 17_000_000, 60.0);
    let mut last = 0;
    for demand in [0.0, 0.1, 0.2, 0.3, 1.0] {
        let r = calculate_control(&missed, &c, Mode::Balance, &mut state(), &input(demand, 0));
        let control = r.map_or(-1, |x| x.0);
        assert!(control >= last && (demand > 0.0 || control == 0));
        last = control;
    }
}
