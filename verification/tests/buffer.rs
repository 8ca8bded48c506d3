use fas_rs::binary64::Binary64;
use fas_rs::buffer::{Buffer, BufferWorkingState};
use fas_rs::config::TargetFps;
use std::time::Duration;

fn f(x: Binary64) -> f64 {
    f64::from_bits(x.to_bits())
}

fn b(x: f64) -> Binary64 {
    Binary64::from_bits(x.to_bits())
}

fn game(tiers: Vec<u32>) -> Buffer {
    Buffer::new(TargetFps::Array(tiers), 42, "com.game".to_owned())
}

fn push(buffer: &mut Buffer, frames: &[u128]) {
    for &frame in frames {
        buffer.frametime_state.frametimes.push_front(frame);
    }
}

#[test]
fn a_new_buffer_is_empty() {
    let buffer = game(vec![60]);
    assert_eq!(buffer.package_info.pid, 42);
    assert_eq!(buffer.package_info.pkg, "com.game");
    assert_eq!(buffer.target_fps_state.target_fps, None);
    assert_eq!(buffer.state.working_state, BufferWorkingState::Unusable);
    assert_eq!(buffer.calculate_average_frametime(None), 0);
    assert_eq!(buffer.calculate_average_frametime(Some(3)), 0);
}

#[test]
fn averages_take_the_newest_frames() {
    let mut buffer = game(vec![60]);
    push(&mut buffer, &[10, 20, 30, 41]);
    assert_eq!(buffer.calculate_average_frametime(None), 25);
    assert_eq!(buffer.calculate_average_frametime(Some(2)), 35);
    assert_eq!(buffer.calculate_average_frametime(Some(9)), 25);
    assert_eq!(buffer.calculate_average_frametime(Some(0)), 0);
    buffer.frametime_state.additional_frametime = 100;
    assert_eq!(buffer.calculate_average_frametime(Some(2)), 85);
}

#[test]
fn an_average_is_held_to_the_longest_span() {
    let longest = Duration::MAX.as_nanos();
    let mut buffer = game(vec![60]);
    push(&mut buffer, &[longest - 10, 5]);
    buffer.frametime_state.additional_frametime = 1000;
    assert_eq!(buffer.calculate_average_frametime(None), longest / 2);
}

#[test]
fn frame_rates_follow_from_averages() {
    let mut buffer = game(vec![30, 60]);
    push(&mut buffer, &[33_333_333; 90]);
    push(&mut buffer, &[16_666_667; 60]);
    buffer.calculate_current_fps();
    let long = (33_333_333u128 * 90 + 16_666_667 * 60) / 150;
    assert_eq!(buffer.frametime_state.avg_time_long, long);
    let long_fps = 1.0 / Duration::from_nanos(long as u64).as_secs_f64();
    assert_eq!(f(buffer.frametime_state.current_fps_long), long_fps);
    // The short average is over as many frames as the highest tier has in a second.
    assert_eq!(buffer.frametime_state.avg_time_short, 16_666_667);
    let short_fps = 1.0 / Duration::from_nanos(16_666_667).as_secs_f64();
    assert_eq!(f(buffer.frametime_state.current_fps_short), short_fps);
}

#[test]
fn a_buffer_without_frames_runs_infinitely_fast() {
    let mut buffer = game(vec![60]);
    buffer.calculate_current_fps();
    assert_eq!(f(buffer.frametime_state.current_fps_long), f64::INFINITY);
    assert_eq!(buffer.target_fps_state.cooldown_remaining, 30);
}

#[test]
fn a_game_at_no_lower_ceiling_aims_at_the_highest_tier() {
    for fps in [15.0, 26.9, 33.1, 56.9, 63.1, 88.0, 118.0, 123.0] {
        let mut buffer = game(vec![60, 120, 60, 30]);
        buffer.frametime_state.current_fps_long = b(fps);
        assert_eq!(buffer.target_fps(), Some(120), "{fps}");
        assert_eq!(buffer.target_fps_state.last_target, Some(120));
        assert_eq!(buffer.target_fps_state.upgrade_attempts, 0);
        assert_eq!(buffer.target_fps_state.cooldown_remaining, 0);
    }
}

#[test]
fn a_game_at_a_lower_ceiling_moves_up_at_the_third_attempt() {
    let mut buffer = game(vec![90, 30, 60]);
    buffer.frametime_state.current_fps_long = b(30.0);
    for (target, attempts) in [(30, 1), (30, 2), (60, 0), (30, 1), (30, 2), (60, 0)] {
        assert_eq!(buffer.target_fps(), Some(target));
        assert_eq!(buffer.target_fps_state.last_target, Some(target));
        assert_eq!(buffer.target_fps_state.upgrade_attempts, attempts);
        assert_eq!(buffer.target_fps_state.cooldown_remaining, 0);
    }
    for fps in [57.0, 60.0, 63.0] {
        let mut buffer = game(vec![30, 60, 90]);
        buffer.target_fps_state.upgrade_attempts = 1;
        buffer.frametime_state.current_fps_long = b(fps);
        assert_eq!(buffer.target_fps(), Some(60), "{fps}");
        assert_eq!(buffer.target_fps(), Some(90), "{fps}");
        assert_eq!(buffer.target_fps_state.last_target, Some(90));
    }
}

#[test]
fn attempts_have_to_come_in_a_row() {
    let mut buffer = game(vec![30, 60]);
    buffer.frametime_state.current_fps_long = b(29.0);
    assert_eq!(buffer.target_fps(), Some(30));
    assert_eq!(buffer.target_fps(), Some(30));
    assert_eq!(buffer.target_fps_state.upgrade_attempts, 2);
    buffer.frametime_state.current_fps_long = b(45.0);
    assert_eq!(buffer.target_fps(), Some(60));
    assert_eq!(buffer.target_fps_state.upgrade_attempts, 0);
    buffer.frametime_state.current_fps_long = b(29.0);
    assert_eq!(buffer.target_fps(), Some(30));
    assert_eq!(buffer.target_fps_state.upgrade_attempts, 1);
    // Of two ceilings that a game is at, the higher one counts.
    let mut close = game(vec![58, 60, 120]);
    close.frametime_state.current_fps_long = b(59.0);
    assert_eq!(close.target_fps(), Some(60));
}

#[test]
fn a_slow_game_has_no_target() {
    let mut buffer = game(vec![30, 60]);
    buffer.frametime_state.current_fps_long = b(14.9);
    buffer.target_fps_state.upgrade_attempts = 2;
    assert_eq!(buffer.target_fps(), None);
    assert_eq!(buffer.target_fps_state.upgrade_attempts, 0);
}

#[test]
fn a_game_above_every_tier_starts_a_cooldown() {
    let mut buffer = game(vec![30, 60]);
    buffer.frametime_state.current_fps_long = b(61.0);
    assert_eq!(buffer.target_fps(), Some(60));
    buffer.frametime_state.current_fps_long = b(63.5);
    assert_eq!(buffer.target_fps(), Some(60));
    assert_eq!(buffer.target_fps_state.cooldown_remaining, 30);
    // Even a game that is too slow keeps its target for the whole cooldown, and no longer.
    buffer.frametime_state.current_fps_long = b(1.0);
    for left in (0..30).rev() {
        assert_eq!(buffer.target_fps(), Some(60));
        assert_eq!(buffer.target_fps_state.cooldown_remaining, left);
    }
    assert_eq!(buffer.target_fps(), None);
}

#[test]
fn a_single_value_is_a_tier() {
    let mut buffer = Buffer::new(TargetFps::Value(90), 1, "com.game".to_owned());
    buffer.frametime_state.current_fps_long = b(60.0);
    assert_eq!(buffer.target_fps(), Some(90));
    let mut none = game(vec![]);
    none.frametime_state.current_fps_long = b(60.0);
    assert_eq!(none.target_fps(), None);
    assert_eq!(none.target_fps_state.cooldown_remaining, 30);
}

#[test]
fn a_new_target_is_announced_once() {
    let mut buffer = game(vec![60]);
    push(&mut buffer, &[16_666_667; 80]);
    buffer.calculate_current_fps();
    buffer.state.working_state = BufferWorkingState::Usable;
    match buffer.calculate_target_fps() {
        Some(change) => {
            assert_eq!(change.target_fps, 60);
            assert_eq!(change.pkg, "com.game");
        }
        None => panic!("the target is new"),
    }
    assert_eq!(buffer.target_fps_state.target_fps, Some(60));
    assert!(buffer.frametime_state.frametimes.is_empty());
    assert_eq!(buffer.state.working_state, BufferWorkingState::Unusable);

    push(&mut buffer, &[16_666_667; 80]);
    buffer.state.working_state = BufferWorkingState::Usable;
    assert!(buffer.calculate_target_fps().is_none());
    assert_eq!(buffer.frametime_state.frametimes.len(), 80);
    assert_eq!(buffer.state.working_state, BufferWorkingState::Usable);

    buffer.frametime_state.current_fps_long = b(10.0);
    assert!(buffer.calculate_target_fps().is_none());
    assert_eq!(buffer.target_fps_state.target_fps, None);
    assert!(buffer.frametime_state.frametimes.is_empty());
    assert_eq!(buffer.state.working_state, BufferWorkingState::Unusable);
}

#[test]
fn frames_have_to_add_up_to_a_span() {
    let longest = Duration::MAX.as_nanos();
    let mut buffer = game(vec![60]);
    assert!(buffer.is_wf());
    push(&mut buffer, &[longest - 1, 1]);
    assert!(buffer.is_wf());
    push(&mut buffer, &[1]);
    assert!(!buffer.is_wf());
    let mut late = game(vec![60]);
    late.frametime_state.additional_frametime = longest + 1;
    assert!(!late.is_wf());
}
