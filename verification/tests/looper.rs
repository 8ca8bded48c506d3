use fas_rs::binary64::Binary64;
use fas_rs::buffer::BufferWorkingState;
use fas_rs::config::{Config, ConfigData, GameValue, MarginFps, Mode, ModeConfig};
use fas_rs::cpu_cycles_reader::{Cycles, CyclesReader};
use fas_rs::cpu_info::{Info, LoadSample};
use fas_rs::looper::{
    reaction, Action, BufferUpdate, Event, FasData, Looper, PolicyInput, Reaction, State,
};
use fas_rs::timing::Moment;
use std::collections::HashMap;

const SECOND: i128 = 1_000_000_000;

fn b(x: f64) -> Binary64 {
    Binary64::from_bits(x.to_bits())
}

fn at(nanos: i128) -> Moment {
    Moment { nanos }
}

fn mode() -> ModeConfig {
    ModeConfig { margin_fps: MarginFps::BaseOnly(b(0.0)), target_core_temperature: 90 }
}

fn looper() -> Looper {
    let mut data = ConfigData::new(mode(), mode(), mode(), mode(), None);
    data.add_game("com.game".to_owned(), GameValue::Integer(60));
    data.add_game("com.wrong".to_owned(), GameValue::Other);
    Looper::new(Config::new(data), at(0))
}

fn frame(pid: i32) -> FasData {
    FasData { pid, frametime: 16_666_667 }
}

fn name(s: &str) -> Option<String> {
    Some(s.to_owned())
}

fn watching() -> Looper {
    let mut l = looper();
    assert_eq!(l.buffer_update(&frame(7), &[7], name("com.game")), BufferUpdate::Opened);
    l
}

fn working() -> Looper {
    let mut l = watching();
    l.retain_topapp(&[7], at(0));
    l.retain_topapp(&[7], at(3 * SECOND + 1));
    assert_eq!(l.fas_state.working_state, State::Working);
    l
}

fn cluster(freqs: Vec<isize>) -> Info {
    let Ok(reader) = CyclesReader::new(&[], &[]) else {
        panic!("nothing to open");
    };
    match Info::new(0, freqs, vec![], reader, at(0)) {
        Ok(info) => info,
        Err(e) => panic!("{e:?}"),
    }
}

fn fill(l: &mut Looper, frametime: u128, fps: f64) {
    if let Some(buffer) = l.fas_state.buffer.as_mut() {
        buffer.target_fps_state.target_fps = Some(60);
        for _ in 0..60 {
            buffer.frametime_state.frametimes.push_front(frametime);
        }
        buffer.frametime_state.current_fps_long = b(fps);
    }
}

fn input(nanos: i128) -> PolicyInput {
    PolicyInput { target_fps_offset_thermal: b(0.0), util_max: b(0.6), now: at(nanos) }
}

#[test]
fn a_new_scheduler_waits_for_a_game() {
    let mut l = looper();
    assert_eq!(l.fas_state.mode, Mode::Balance);
    assert_eq!(l.fas_state.working_state, State::NotWorking);
    assert!(l.fas_state.buffer.is_none());
    assert_eq!(l.controller_state.max_freq, 2_918_400);
    assert_eq!(l.controller_state.last_mode_switch, at(-10 * SECOND));
    let (gone, actions) = l.retain_topapp(&[1, 2], at(5 * SECOND));
    assert!(gone.is_none() && actions.is_empty());
    assert_eq!(l.fas_state.working_state, State::NotWorking);
}

#[test]
fn frames_of_other_processes_are_left_out() {
    let mut l = looper();
    assert_eq!(l.buffer_update(&frame(7), &[8], name("com.game")), BufferUpdate::Ignored);
    let empty = FasData { pid: 7, frametime: 0 };
    assert_eq!(l.buffer_update(&empty, &[7], name("com.game")), BufferUpdate::Ignored);
    assert_eq!(l.buffer_update(&frame(7), &[7], None), BufferUpdate::Ignored);
    assert_eq!(l.buffer_update(&frame(7), &[7], name("com.other")), BufferUpdate::Ignored);
    assert_eq!(l.buffer_update(&frame(7), &[7], name("com.wrong")), BufferUpdate::Ignored);
    assert!(l.fas_state.buffer.is_none());
}

#[test]
fn the_first_frame_of_a_game_opens_a_buffer() {
    let mut l = looper();
    assert!(l.needs_name(&frame(7), &[3, 7]));
    assert!(!l.needs_name(&frame(7), &[3]));
    l.last_target_fps = Some(60);
    assert_eq!(l.buffer_update(&frame(7), &[3, 7], name("com.game:ui")), BufferUpdate::Opened);
    assert_eq!(l.last_target_fps, None);
    match &l.fas_state.buffer {
        Some(buffer) => {
            assert_eq!(buffer.package_info.pid, 7);
            assert_eq!(buffer.package_info.pkg, "com.game:ui");
        }
        None => panic!("the game is listed"),
    }
    assert!(!l.needs_name(&frame(7), &[7]));
    assert_eq!(l.buffer_update(&frame(7), &[7], None), BufferUpdate::Push);
    assert_eq!(l.buffer_update(&frame(8), &[7], None), BufferUpdate::Ignored);
}

#[test]
fn a_game_is_taken_over_after_three_seconds() {
    let mut l = watching();
    l.controller_state.was_fps_ok = true;
    l.controller_state.last_control_mode = true;
    l.controller_state.target_fps_offset = b(-2.0);
    let (gone, actions) = l.retain_topapp(&[7], at(SECOND));
    assert!(gone.is_none());
    assert_eq!(actions, vec![Action::StartFas]);
    assert_eq!(l.fas_state.working_state, State::Waiting);
    assert!(l.retain_topapp(&[7], at(4 * SECOND)).1.is_empty());
    assert_eq!(l.fas_state.working_state, State::Waiting);
    let actions = l.retain_topapp(&[7], at(4 * SECOND + 1)).1;
    assert_eq!(actions, vec![Action::Cleanup, Action::InitGame { pid: 7 }]);
    assert_eq!(l.fas_state.working_state, State::Working);
    assert!(!l.controller_state.was_fps_ok && !l.controller_state.last_control_mode);
    assert_eq!(l.controller_state.target_fps_offset.to_bits(), 0);
    assert_eq!(l.controller_state.last_mode_switch, at(-6 * SECOND + 1));
    assert!(l.retain_topapp(&[7], at(9 * SECOND)).1.is_empty());
}

#[test]
fn a_game_that_is_gone_is_forgotten() {
    let mut l = working();
    let (gone, actions) = l.retain_topapp(&[8], at(9 * SECOND));
    match gone {
        Some(package) => {
            assert_eq!(package.pid, 7);
            assert_eq!(package.pkg, "com.game");
        }
        None => panic!("the game is gone"),
    }
    assert_eq!(actions, vec![Action::UndoCleanup, Action::InitDefault, Action::StopFas]);
    assert!(l.fas_state.buffer.is_none());
    assert_eq!(l.fas_state.working_state, State::NotWorking);
    assert!(l.disable_fas().is_empty());
}

#[test]
fn waiting_ends_without_a_trace() {
    let mut l = watching();
    assert_eq!(l.enable_fas(at(0)), vec![Action::StartFas]);
    assert!(l.disable_fas().is_empty());
    assert_eq!(l.fas_state.working_state, State::NotWorking);
}

#[test]
fn a_new_mode_starts_the_controller_anew() {
    let mut l = working();
    assert_eq!(l.switch_mode(None), None);
    assert_eq!(l.switch_mode(Some(Mode::Balance)), None);
    assert_eq!(l.switch_mode(Some(Mode::Fast)), Some(Action::InitGame { pid: 7 }));
    assert_eq!(l.fas_state.mode, Mode::Fast);
    let mut idle = looper();
    assert_eq!(idle.switch_mode(Some(Mode::Powersave)), None);
    assert_eq!(idle.fas_state.mode, Mode::Powersave);
}

#[test]
fn the_analyzer_restarts_at_every_second_call_at_most_once_a_second() {
    let mut l = looper();
    assert!(!l.restart_analyzer(at(0)));
    assert!(!l.restart_analyzer(at(SECOND - 1)));
    assert!(l.restart_analyzer(at(SECOND)));
    assert!(!l.restart_analyzer(at(SECOND)));
    assert!(!l.restart_analyzer(at(2 * SECOND - 1)));
    assert!(l.restart_analyzer(at(2 * SECOND)));
}

#[test]
fn games_are_attached_up_to_the_first_nameless_process() {
    let l = looper();
    let apps = [
        (1, name("com.game")),
        (2, name("com.other")),
        (3, name("com.wrong")),
        (4, None),
        (5, name("com.game")),
    ];
    assert_eq!(l.update_analyzer(&apps), vec![1, 3]);
    assert!(l.update_analyzer(&[]).is_empty());
}

#[test]
fn events_lead_to_reactions() {
    let usable = Some(BufferWorkingState::Usable);
    let unusable = Some(BufferWorkingState::Unusable);
    assert_eq!(reaction(Event::Frame(usable)), Some(Reaction::DoPolicy));
    assert_eq!(reaction(Event::Frame(unusable)), Some(Reaction::DisableFas));
    assert_eq!(reaction(Event::Frame(None)), None);
    assert_eq!(reaction(Event::Silence(usable)), Some(Reaction::DoPolicy));
    assert_eq!(
        reaction(Event::Silence(unusable)),
        Some(Reaction::RestartAnalyzerAndDisableFas)
    );
    assert_eq!(reaction(Event::Silence(None)), None);
}

#[test]
fn a_change_of_the_target_skips_one_run() {
    let mut idle = watching();
    assert!(!idle.begin_policy());
    let mut l = working();
    fill(&mut l, 16_000_000, 60.0);
    assert!(l.begin_policy());
    assert_eq!(l.last_target_fps, Some(60));
    assert!(l.begin_policy());
    if let Some(buffer) = l.fas_state.buffer.as_mut() {
        buffer.target_fps_state.target_fps = Some(90);
        buffer.frametime_state.additional_frametime = 5;
    }
    assert!(!l.begin_policy());
    match &l.fas_state.buffer {
        Some(buffer) => {
            assert!(buffer.frametime_state.frametimes.is_empty());
            assert_eq!(buffer.frametime_state.additional_frametime, 0);
        }
        None => panic!("the game is still watched"),
    }
    assert_eq!(l.last_target_fps, Some(90));
    assert!(l.begin_policy());
}

#[test]
fn the_policy_follows_the_highest_demand() {
    let infos = [cluster(vec![300_000, 1_000_000]), cluster(vec![2_000_000, 700_000])];
    let demands = [b(0.1), b(0.3), b(f64::NAN), b(0.2)];
    let mut l = working();
    fill(&mut l, 16_000_000, 60.0);
    let i = input(5 * SECOND);
    assert!(l.is_policy_defined(&infos, &demands, &i));
    let step = (2_000_000.0 * (0.05 + (0.60 - 0.3) / 0.60 * 0.15)) as isize;
    assert_eq!(l.do_policy(&infos, &demands, &i), (-step, false));
    assert_eq!(l.controller_state.max_freq, 2_000_000);
    assert!(l.controller_state.last_control_mode);
}

#[test]
fn the_policy_tells_of_a_janked_game() {
    let infos = [cluster(vec![2_000_000])];
    let mut l = working();
    fill(&mut l, 16_000_000, 40.0);
    assert!(l.do_policy(&infos, &[], &input(5 * SECOND)).1);
    assert!(l.controller_state.is_janked);
}

#[test]
fn without_enough_frames_the_frequency_stays() {
    let mut l = working();
    l.controller_state.is_janked = true;
    let i = input(5 * SECOND);
    assert!(l.is_policy_defined(&[], &[], &i));
    assert_eq!(l.do_policy(&[], &[], &i), (0, false));
    assert!(!l.controller_state.is_janked);
    assert_eq!(l.controller_state.max_freq, 2_918_400);
}

#[test]
fn an_undefined_policy_run_is_told() {
    let mut l = working();
    fill(&mut l, 16_000_000, 60.0);
    l.controller_state.max_freq = -1;
    let i = input(5 * SECOND);
    assert!(!l.is_policy_defined(&[], &[], &i));
    assert!(l.is_policy_defined(&[cluster(vec![9])], &[], &i));
    assert_eq!(l.run_policy(&mut [], &[], &i), None);
    assert_eq!(l.controller_state.max_freq, -1);
}

fn sampled(number: usize, khz: isize) -> Info {
    let Ok(reader) = CyclesReader::new(&[number], &[3]) else {
        panic!("the counter was opened");
    };
    let mut info = match Info::new(0, vec![300_000, khz], vec![number], reader, at(0)) {
        Ok(info) => info,
        Err(e) => panic!("{e:?}"),
    };
    info.set_cur_freq(300_000);
    info.last_cycles = vec![Some(Cycles(0))];
    info
}

fn load(core: i32, cycles: u64) -> Option<LoadSample> {
    Some(LoadSample { now: at(SECOND), cycles: HashMap::from([(core, Cycles(cycles))]) })
}

#[test]
fn the_policy_runs_on_load_demand_rates() {
    // The last two policies cannot be sampled: one was not read, the other has no counter.
    let mut infos = vec![
        sampled(0, 1_000_000),
        sampled(1, 2_000_000),
        sampled(2, 1_000_000),
        sampled(3, 1_000_000),
    ];
    let samples = [load(0, 100_000_000), load(1, 600_000_000), None, load(9, 999_000_000)];
    let mut l = working();
    fill(&mut l, 16_000_000, 60.0);
    let step = (2_000_000.0 * (0.05 + (0.60 - 0.3) / 0.60 * 0.15)) as isize;
    let r = l.run_policy(&mut infos, &samples, &input(5 * SECOND));
    assert_eq!(r, Some((-step, false)));
    assert_eq!(l.controller_state.max_freq, 2_000_000);
    assert_eq!(infos[0].last_cycles, vec![Some(Cycles(100_000_000))]);
    assert_eq!(infos[0].last_instant, at(SECOND));
    assert_eq!(infos[2].last_instant, at(0));
    assert_eq!(infos[3].last_cycles, vec![Some(Cycles(0))]);
}

#[test]
fn a_freeform_window_stops_the_work() {
    let mut l = working();
    let (gone, actions) = l.follow_windows(&[7], true, at(9 * SECOND));
    assert!(gone.is_none());
    assert_eq!(actions, vec![Action::UndoCleanup, Action::InitDefault, Action::StopFas]);
    assert_eq!(l.fas_state.working_state, State::NotWorking);
    let (_, actions) = l.follow_windows(&[7], true, at(10 * SECOND));
    assert_eq!(actions, vec![Action::StartFas]);
    assert_eq!(l.fas_state.working_state, State::NotWorking);
    let (_, actions) = l.follow_windows(&[7], false, at(11 * SECOND));
    assert_eq!(actions, vec![Action::StartFas]);
    assert_eq!(l.fas_state.working_state, State::Waiting);
    let (gone, _) = l.follow_windows(&[], false, at(12 * SECOND));
    assert_eq!(gone.map(|package| package.pid), Some(7));
}

#[test]
fn events_are_answered() {
    let usable = Some(BufferWorkingState::Usable);
    let unusable = Some(BufferWorkingState::Unusable);
    let mut l = working();
    let reply = l.react(Event::Frame(None), at(0));
    assert!(!reply.do_policy && !reply.restart_analyzer && reply.actions.is_empty());
    assert!(l.react(Event::Frame(usable), at(0)).do_policy);
    assert!(l.react(Event::Silence(usable), at(0)).do_policy);
    let reply = l.react(Event::Silence(unusable), at(0));
    assert!(!reply.do_policy && !reply.restart_analyzer);
    assert_eq!(reply.actions.len(), 3);
    assert!(!l.react(Event::Frame(usable), at(0)).do_policy);
    let reply = l.react(Event::Silence(unusable), at(SECOND));
    assert!(reply.restart_analyzer && reply.actions.is_empty());
    let mut l = working();
    let reply = l.react(Event::Frame(unusable), at(0));
    assert!(!reply.restart_analyzer);
    assert_eq!(reply.actions.len(), 3);
}
