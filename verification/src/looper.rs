//! The scheduler: when a game is taken over, and what is done for it.
//!
//! The functions here decide; what they decide is done by the caller, in the order given.

use crate::binary64::{greater_of, integer, Binary64};
use crate::buffer::{is_new, Buffer, BufferWorkingState, FrametimeState, PackageInfo};
use crate::config::{configured_target, listed, Config, Mode, TargetFps};
use crate::control::{
    calculate_control, control_defined, control_step, is_control_defined, state_after, ControlInput,
    ControlStep, ControllerState, FRAMES_NEEDED,
};
use crate::cpu_info::{demand_fits, demands_shown, load_demands, load_sampled, Info, LoadSample};
use crate::timing::{earlier, elapsed, Moment, SECOND};
use likely_stable::{likely, unlikely};
use vstd::prelude::*;

verus! {

/// How long a game has to be on top before it is taken over: three seconds.
pub const DELAY_TIME: u128 = 3_000_000_000;

/// The highest frequency that is assumed before the device has told its own, in kHz.
pub const INITIAL_MAX_FREQ: isize = 2_918_400;

/// Whether a game is taken over.
#[derive(Debug, Clone, Copy, PartialEq, Eq, Structural)]
pub enum State {
    NotWorking,
    Waiting,
    Working,
}

/// Something to be done.
#[derive(Debug, Clone, Copy, PartialEq, Eq, Structural)]
pub enum Action {
    /// Let the controller take over the frequencies for the game with this process.
    InitGame { pid: i32 },
    /// Give the frequencies back.
    InitDefault,
    /// Stop what gets in the way of a game.
    Cleanup,
    /// Undo the cleanup.
    UndoCleanup,
    /// Tell the extensions that a game is about to be taken over.
    StartFas,
    /// Tell the extensions that a game is no longer taken over.
    StopFas,
}

/// What the scheduler waits for.
#[derive(Debug, Clone, Copy, PartialEq, Eq, Structural)]
pub enum Event {
    /// A frame came; what the buffer can be used for now, where the frame went into it.
    Frame(Option<BufferWorkingState>),
    /// No frame came in time; what the buffer, where there is one, can be used for once it
    /// counts that time.
    Silence(Option<BufferWorkingState>),
}

/// What follows from an event.
#[derive(Debug, Clone, Copy, PartialEq, Eq, Structural)]
pub enum Reaction {
    DoPolicy,
    DisableFas,
    RestartAnalyzerAndDisableFas,
}

/// What is to be done about an event.
#[derive(Debug)]
pub struct Reply {
    /// Detach every process from the analyzer, and attach the games anew.
    pub restart_analyzer: bool,
    pub actions: Vec<Action>,
    /// Run the policy.
    pub do_policy: bool,
}

/// A frame: the process that showed it, and the nanoseconds that it took.
#[derive(Debug, Clone, Copy)]
pub struct FasData {
    pub pid: i32,
    pub frametime: u128,
}

/// What becomes of a frame.
#[derive(Debug, Clone, Copy, PartialEq, Eq, Structural)]
pub enum BufferUpdate {
    /// It is left out.
    Ignored,
    /// It is pushed to the buffer.
    Push,
    /// It is pushed to the buffer, which is new; the extensions are told first.
    Opened,
}

/// The game that is watched.
pub struct FasState {
    pub mode: Mode,
    pub working_state: State,
    pub delay_timer: Moment,
    pub buffer: Option<Buffer>,
}

/// When the frame analyzer was restarted.
#[derive(Debug, Clone, Copy)]
pub struct AnalyzerState {
    pub restart_counter: u8,
    pub restart_timer: Moment,
}

/// The scheduler.
pub struct Looper {
    pub analyzer_state: AnalyzerState,
    pub config: Config,
    pub fas_state: FasState,
    pub controller_state: ControllerState,
    /// The target frame rate of the last policy run, to tell when it changes.
    pub last_target_fps: Option<u32>,
}

/// What the policy works on besides the scheduler, the policies and their demands: the offset
/// that the temperature asks for, the highest usage of a core, and the time.
#[derive(Debug, Clone, Copy)]
pub struct PolicyInput {
    pub target_fps_offset_thermal: Binary64,
    pub util_max: Binary64,
    pub now: Moment,
}

/// The highest of some demands, at least zero.
pub open spec fn highest_demand(demands: Seq<Binary64>) -> Binary64
    decreases demands.len(),
{
    if demands.len() == 0 {
        integer(0)
    } else {
        greater_of(highest_demand(demands.drop_last()), demands.last())
    }
}

/// The higher of a frequency that may be missing and one that is not.
pub open spec fn higher(a: Option<isize>, b: isize) -> Option<isize> {
    match a {
        Some(x) => if x > b {
            Some(x)
        } else {
            Some(b)
        },
        None => Some(b),
    }
}

/// The highest of some frequencies and of one found before.
pub open spec fn highest_of(freqs: Seq<isize>, before: Option<isize>) -> Option<isize>
    decreases freqs.len(),
{
    if freqs.len() == 0 {
        before
    } else {
        higher(highest_of(freqs.drop_last(), before), freqs.last())
    }
}

/// The highest frequency of some policies.
pub open spec fn highest_freq(infos: Seq<Info>) -> Option<isize>
    decreases infos.len(),
{
    if infos.len() == 0 {
        None
    } else {
        highest_of(infos.last().freqs@, highest_freq(infos.drop_last()))
    }
}

/// The controller once it knows the highest frequency.
pub open spec fn with_max_freq(state: ControllerState, infos: Seq<Info>) -> ControllerState {
    match highest_freq(infos) {
        Some(freq) => ControllerState { max_freq: freq, ..state },
        None => state,
    }
}

/// What the controller works on.
pub open spec fn control_input(demands: Seq<Binary64>, input: PolicyInput) -> ControlInput {
    ControlInput {
        target_fps_offset_thermal: input.target_fps_offset_thermal,
        demand: highest_demand(demands),
        util_max: input.util_max,
        now: input.now,
    }
}

/// Stops working: the frequencies are given back where they had been taken over.
pub open spec fn disabled(l: Looper) -> (Looper, Seq<Action>) {
    (
        Looper {
            fas_state: FasState { working_state: State::NotWorking, ..l.fas_state },
            ..l
        },
        if l.fas_state.working_state == State::Working {
            seq![Action::UndoCleanup, Action::InitDefault, Action::StopFas]
        } else {
            Seq::empty()
        },
    )
}

/// The controller at the start of a game: it may follow the demand at once.
pub open spec fn fresh_controller(state: ControllerState, now: Moment) -> ControllerState {
    ControllerState {
        target_fps_offset: integer(0),
        was_fps_ok: false,
        last_control_mode: false,
        last_mode_switch: earlier(now, 10_000_000_000),
        ..state
    }
}

/// Goes one step towards working: waits at first, and works once the delay is over.
pub open spec fn enabled(l: Looper, now: Moment) -> (Looper, Seq<Action>) {
    match l.fas_state.working_state {
        State::NotWorking => (
            Looper {
                fas_state: FasState {
                    working_state: State::Waiting,
                    delay_timer: now,
                    ..l.fas_state
                },
                ..l
            },
            seq![Action::StartFas],
        ),
        State::Waiting => if elapsed(l.fas_state.delay_timer, now) > DELAY_TIME {
            (
                Looper {
                    fas_state: FasState { working_state: State::Working, ..l.fas_state },
                    controller_state: fresh_controller(l.controller_state, now),
                    last_target_fps: None,
                    ..l
                },
                seq![
                    Action::Cleanup,
                    Action::InitGame { pid: l.fas_state.buffer->0.package_info.pid },
                ],
            )
        } else {
            (l, Seq::empty())
        },
        State::Working => (l, Seq::empty()),
    }
}

/// The game is no longer among the top processes.
pub open spec fn gone(l: Looper, topapp_pids: Seq<i32>) -> bool {
    l.fas_state.buffer is Some && !topapp_pids.contains(
        l.fas_state.buffer->0.package_info.pid,
    )
}

/// Forgets the game where it is gone.
pub open spec fn without_gone(l: Looper, topapp_pids: Seq<i32>) -> Looper {
    if gone(l, topapp_pids) {
        Looper { fas_state: FasState { buffer: None, ..l.fas_state }, ..l }
    } else {
        l
    }
}

/// Follows the top processes: forgets a game that is gone, and goes one step towards working
/// while there is one.
pub open spec fn retained(l: Looper, topapp_pids: Seq<i32>, now: Moment) -> (
    Looper,
    Seq<Action>,
) {
    let rest = without_gone(l, topapp_pids);
    if rest.fas_state.buffer is None {
        disabled(rest)
    } else {
        enabled(rest, now)
    }
}

/// The target frame rate of the game that is watched.
pub open spec fn current_target(l: Looper) -> Option<u32> {
    match l.fas_state.buffer {
        Some(buffer) => buffer.target_fps_state.target_fps,
        None => None,
    }
}

/// The target frame rate is another one than at the last policy run.
pub open spec fn target_changed(l: Looper) -> bool {
    l.last_target_fps is Some && l.last_target_fps != current_target(l)
}

/// Follows the top processes, and stops working while a freeform window is visible.
pub open spec fn windows_followed(
    l: Looper,
    topapp_pids: Seq<i32>,
    freeform: bool,
    now: Moment,
) -> (Looper, Seq<Action>) {
    let (next, actions) = retained(l, topapp_pids, now);
    if freeform {
        (disabled(next).0, actions + disabled(next).1)
    } else {
        (next, actions)
    }
}

/// The analyzer is restarted at every second call, at most once a second.
pub open spec fn analyzer_restarted(l: Looper, now: Moment) -> (Looper, bool) {
    let state = l.analyzer_state;
    let restart = state.restart_counter == 1 && elapsed(state.restart_timer, now) >= SECOND;
    (
        Looper {
            analyzer_state: if restart {
                AnalyzerState { restart_counter: 0, restart_timer: now }
            } else {
                AnalyzerState { restart_counter: 1, ..state }
            },
            ..l
        },
        restart,
    )
}

/// The policy is to run: there is work, and the target frame rate has not just changed.
pub open spec fn policy_due(l: Looper) -> bool {
    l.fas_state.working_state == State::Working && !target_changed(l)
}

/// What the beginning of a policy run does: the target frame rate is noted, and where it has
/// changed, the frames of the old one are forgotten.
pub open spec fn policy_begun(before: Looper, after: Looper) -> bool {
    let noted = Looper { last_target_fps: current_target(before), ..before };
    if before.fas_state.working_state != State::Working {
        after == before
    } else if target_changed(before) && before.fas_state.buffer is Some {
        let frames = after.fas_state.buffer->0.frametime_state.frametimes;
        &&& frames@ == Seq::<u128>::empty()
        &&& after == (Looper {
            fas_state: FasState {
                buffer: Some(
                    Buffer {
                        frametime_state: FrametimeState {
                            frametimes: frames,
                            additional_frametime: 0,
                            ..before.fas_state.buffer->0.frametime_state
                        },
                        ..before.fas_state.buffer->0
                    },
                ),
                ..before.fas_state
            },
            ..noted
        })
    } else {
        after == noted
    }
}

/// A frame that is taken: of a top process, and of some length.
pub open spec fn accepted(data: FasData, topapp_pids: Seq<i32>) -> bool {
    topapp_pids.contains(data.pid) && data.frametime > 0
}

/// What follows from an event: a usable buffer is acted on, an unusable one ends the work. Where
/// no frame came, the analyzer may have lost the game, and is restarted.
pub open spec fn reaction_to(event: Event) -> Option<Reaction> {
    match event {
        Event::Frame(Some(BufferWorkingState::Usable)) => Some(Reaction::DoPolicy),
        Event::Frame(Some(BufferWorkingState::Unusable)) => Some(Reaction::DisableFas),
        Event::Silence(Some(BufferWorkingState::Usable)) => Some(Reaction::DoPolicy),
        Event::Silence(Some(BufferWorkingState::Unusable)) => Some(
            Reaction::RestartAnalyzerAndDisableFas,
        ),
        _ => None,
    }
}

/// The game has enough frames and a target, so that the controller has something to say.
pub open spec fn ready(buffer: Buffer) -> bool {
    buffer.frametime_state.frametimes@.len() >= FRAMES_NEEDED
        && buffer.target_fps_state.target_fps is Some
}

/// The step of the controller that a policy run takes.
pub open spec fn policy_step(l: Looper, infos: Seq<Info>, input: ControlInput) -> ControlStep {
    control_step(
        l.fas_state.buffer->0,
        l.config.inner.mode(l.fas_state.mode).margin_fps,
        with_max_freq(l.controller_state, infos),
        l.fas_state.buffer->0.target_fps_state.target_fps->0,
        input,
    )
}

/// A policy run is defined: its step of the controller is, where it takes one.
pub open spec fn policy_defined(l: Looper, infos: Seq<Info>, input: ControlInput) -> bool {
    l.fas_state.buffer is Some && ready(l.fas_state.buffer->0) ==> control_defined(
        l.fas_state.buffer->0,
        l.config.inner.mode(l.fas_state.mode).margin_fps,
        with_max_freq(l.controller_state, infos),
        l.fas_state.buffer->0.target_fps_state.target_fps->0,
        input,
    )
}

/// The change of the frequency and the verdict on the frame rate that a policy run gives.
pub open spec fn policy_result(l: Looper, infos: Seq<Info>, input: ControlInput) -> (int, bool) {
    if ready(l.fas_state.buffer->0) {
        (policy_step(l, infos, input).control, policy_step(l, infos, input).janked)
    } else {
        (0, false)
    }
}

/// The controller after a policy run.
pub open spec fn controller_after(
    l: Looper,
    infos: Seq<Info>,
    input: ControlInput,
) -> ControllerState {
    let state = with_max_freq(l.controller_state, infos);
    if ready(l.fas_state.buffer->0) {
        ControllerState {
            is_janked: policy_step(l, infos, input).janked,
            ..state_after(state, policy_step(l, infos, input), input.now)
        }
    } else {
        ControllerState { is_janked: false, ..state }
    }
}

/// The processes to be attached: those of the games among the named ones. The first process
/// without a name ends the list.
pub open spec fn games(config: Config, apps: Seq<(i32, Option<String>)>) -> Seq<i32>
    decreases apps.len(),
{
    if apps.len() == 0 {
        Seq::empty()
    } else {
        match apps[0].1 {
            None => Seq::empty(),
            Some(pkg) => if listed(config.inner, pkg@) {
                seq![apps[0].0] + games(config, apps.skip(1))
            } else {
                games(config, apps.skip(1))
            },
        }
    }
}

fn contains_pid(pids: &[i32], pid: i32) -> (r: bool)
    ensures
        r == pids@.contains(pid),
{
    let mut i: usize = 0;
    while i < pids.len()
        invariant
            i <= pids@.len(),
            forall|k: int| 0 <= k < i ==> pids@[k] != pid,
        decreases pids@.len() - i,
    {
        if pids[i] == pid {
            return true;
        }
        i = i + 1;
    }
    false
}

fn max_demand(demands: &[Binary64]) -> (r: Binary64)
    ensures
        r == highest_demand(demands@),
{
    let mut r = Binary64::from_u64(0);
    let mut i: usize = 0;
    assert(demands@.take(0) == Seq::<Binary64>::empty());
    while i < demands.len()
        invariant
            i <= demands@.len(),
            r == highest_demand(demands@.take(i as int)),
        decreases demands@.len() - i,
    {
        assert(demands@.take(i + 1).drop_last() == demands@.take(i as int));
        r = r.max(demands[i]);
        i = i + 1;
    }
    assert(demands@.take(i as int) == demands@);
    r
}

fn max_freq_of(freqs: &Vec<isize>, before: Option<isize>) -> (r: Option<isize>)
    ensures
        r == highest_of(freqs@, before),
{
    let mut r = before;
    let mut i: usize = 0;
    assert(freqs@.take(0) == Seq::<isize>::empty());
    while i < freqs.len()
        invariant
            i <= freqs@.len(),
            r == highest_of(freqs@.take(i as int), before),
        decreases freqs@.len() - i,
    {
        assert(freqs@.take(i + 1).drop_last() == freqs@.take(i as int));
        let freq: isize = freqs[i];
        r =
        match r {
            Some(x) => if x > freq {
                Some(x)
            } else {
                Some(freq)
            },
            None => Some(freq),
        };
        i = i + 1;
    }
    assert(freqs@.take(i as int) == freqs@);
    r
}

fn max_freq(infos: &[Info]) -> (r: Option<isize>)
    ensures
        r == highest_freq(infos@),
{
    let mut r: Option<isize> = None;
    let mut i: usize = 0;
    assert(infos@.take(0) == Seq::<Info>::empty());
    while i < infos.len()
        invariant
            i <= infos@.len(),
            r == highest_freq(infos@.take(i as int)),
        decreases infos@.len() - i,
    {
        assert(infos@.take(i + 1).drop_last() == infos@.take(i as int));
        r = max_freq_of(&infos[i].freqs, r);
        i = i + 1;
    }
    assert(infos@.take(i as int) == infos@);
    r
}

/// Policies with the same frequencies have the same highest one.
proof fn lemma_same_highest_freq(a: Seq<Info>, b: Seq<Info>)
    requires
        a.len() == b.len(),
        forall|i: int| 0 <= i < b.len() ==> (#[trigger] b[i]).freqs == a[i].freqs,
    ensures
        highest_freq(a) == highest_freq(b),
    decreases a.len(),
{
    if a.len() > 0 {
        let x = a.drop_last();
        let y = b.drop_last();
        assert forall|i: int| 0 <= i < y.len() implies (#[trigger] y[i]).freqs == x[i].freqs by {
            assert(b[i].freqs == a[i].freqs);
        }
        lemma_same_highest_freq(x, y);
        assert(b[b.len() - 1].freqs == a[a.len() - 1].freqs);
    }
}

/// What follows from an event.
pub fn reaction(event: Event) -> (r: Option<Reaction>)
    ensures
        r == reaction_to(event),
{
    match event {
        Event::Frame(state) => match state {
            Some(BufferWorkingState::Usable) => Some(Reaction::DoPolicy),
            Some(BufferWorkingState::Unusable) => Some(Reaction::DisableFas),
            None => None,
        },
        Event::Silence(state) => match state {
            Some(BufferWorkingState::Usable) => Some(Reaction::DoPolicy),
            Some(BufferWorkingState::Unusable) => Some(Reaction::RestartAnalyzerAndDisableFas),
            None => None,
        },
    }
}

impl Looper {
    /// Only a game that is there is worked for.
    pub open spec fn wf(self) -> bool {
        &&& self.fas_state.working_state == State::Working ==> self.fas_state.buffer is Some
        &&& self.fas_state.buffer is Some ==> self.fas_state.buffer->0.wf()
        &&& self.analyzer_state.restart_counter <= 1
    }

    /// A scheduler that watches no game yet.
    pub fn new(config: Config, now: Moment) -> (r: Self)
        ensures
            r.wf(),
            r.config == config,
            r.analyzer_state == (AnalyzerState { restart_counter: 0, restart_timer: now }),
            r.fas_state == (FasState {
                mode: Mode::Balance,
                working_state: State::NotWorking,
                delay_timer: now,
                buffer: None,
            }),
            r.controller_state == (ControllerState {
                params: config.controller_params,
                target_fps_offset: integer(0),
                usage_sample_timer: now,
                is_janked: false,
                max_freq: INITIAL_MAX_FREQ,
                was_fps_ok: false,
                last_control_mode: false,
                last_mode_switch: earlier(now, 10_000_000_000),
            }),
            r.last_target_fps is None,
    {
        let params = config.controller_params;
        Looper {
            analyzer_state: AnalyzerState { restart_counter: 0, restart_timer: now },
            config,
            fas_state: FasState {
                mode: Mode::Balance,
                working_state: State::NotWorking,
                delay_timer: now,
                buffer: None,
            },
            controller_state: ControllerState {
                params,
                target_fps_offset: Binary64::from_u64(0),
                usage_sample_timer: now,
                is_janked: false,
                max_freq: INITIAL_MAX_FREQ,
                was_fps_ok: false,
                last_control_mode: false,
                last_mode_switch: now.earlier(10_000_000_000),
            },
            last_target_fps: None,
        }
    }

    /// Takes over a new mode, where one could be read. While a game is worked for, the
    /// controller starts anew.
    pub fn switch_mode(&mut self, new_mode: Option<Mode>) -> (r: Option<Action>)
        requires
            old(self).wf(),
        ensures
            final(self).wf(),
            ({
                let fas = old(self).fas_state;
                let switched = new_mode is Some && new_mode->0 != fas.mode;
                &&& *final(self) == (if switched {
                    Looper { fas_state: FasState { mode: new_mode->0, ..fas }, ..*old(self) }
                } else {
                    *old(self)
                })
                &&& r == (if switched && fas.working_state == State::Working {
                    Some(Action::InitGame { pid: fas.buffer->0.package_info.pid })
                } else {
                    None::<Action>
                })
            }),
    {
        if let Some(new_mode) = new_mode {
            if likely(self.fas_state.mode != new_mode) {
                self.fas_state.mode = new_mode;
                if self.fas_state.working_state == State::Working {
                    if let Some(buffer) = &self.fas_state.buffer {
                        return Some(Action::InitGame { pid: buffer.package_info.pid });
                    }
                }
            }
        }
        None
    }

    /// Whether the analyzer is to be restarted: at every second call, at most once a second.
    pub fn restart_analyzer(&mut self, now: Moment) -> (r: bool)
        requires
            old(self).wf(),
        ensures
            final(self).wf(),
            (*final(self), r) == analyzer_restarted(*old(self), now),
    {
        if self.analyzer_state.restart_counter == 1 {
            if self.analyzer_state.restart_timer.elapsed(now) >= SECOND {
                self.analyzer_state.restart_timer = now;
                self.analyzer_state.restart_counter = 0;
                return true;
            }
        } else {
            self.analyzer_state.restart_counter = self.analyzer_state.restart_counter + 1;
        }
        false
    }

    /// Whether the policy is to run. It does not while no game is worked for, nor right after
    /// the target frame rate has changed: then the frames of the old one are forgotten first.
    pub fn begin_policy(&mut self) -> (r: bool)
        requires
            old(self).wf(),
        ensures
            final(self).wf(),
            r == policy_due(*old(self)),
            policy_begun(*old(self), *final(self)),
    {
        if unlikely(self.fas_state.working_state != State::Working) {
            return false;
        }
        let current: Option<u32> = match &self.fas_state.buffer {
            Some(buffer) => buffer.target_fps_state.target_fps,
            None => None,
        };
        if self.last_target_fps.is_some() && self.last_target_fps != current {
            if let Some(mut buffer) = self.fas_state.buffer.take() {
                buffer.frametime_state.frametimes.clear();
                buffer.frametime_state.additional_frametime = 0;
                self.fas_state.buffer = Some(buffer);
            }
            self.last_target_fps = current;
            return false;
        }
        self.last_target_fps = current;
        true
    }

    /// The processes to be attached to the analyzer, of some processes with their names.
    pub fn update_analyzer(&self, apps: &[(i32, Option<String>)]) -> (r: Vec<i32>)
        ensures
            r@ == games(self.config, apps@),
    {
        let mut pids: Vec<i32> = Vec::new();
        let mut i: usize = 0;
        assert(apps@.skip(0) == apps@);
        while i < apps.len()
            invariant
                i <= apps@.len(),
                pids@ + games(self.config, apps@.skip(i as int)) == games(self.config, apps@),
            decreases apps@.len() - i,
        {
            assert(apps@.skip(i as int).skip(1) == apps@.skip(i + 1));
            match &apps[i].1 {
                None => {
                    assert(pids@ + Seq::<i32>::empty() == pids@);
                    return pids;
                },
                Some(pkg) => {
                    if self.config.need_fas(pkg.as_str()) {
                        let ghost before = pids@;
                        pids.push(apps[i].0);
                        assert(pids@ + games(self.config, apps@.skip(i + 1)) == before + (seq![
                            apps@[i as int].0,
                        ] + games(self.config, apps@.skip(i + 1))));
                    }
                },
            }
            i = i + 1;
        }
        assert(pids@ + Seq::<i32>::empty() == pids@);
        pids
    }

    fn max_freq_state(&self, infos: &[Info]) -> (r: ControllerState)
        ensures
            r == with_max_freq(self.controller_state, infos@),
    {
        let mut state: ControllerState = self.controller_state;
        if let Some(freq) = max_freq(infos) {
            state.max_freq = freq;
        }
        state
    }

    /// Whether a policy run is defined.
    pub fn is_policy_defined(
        &self,
        infos: &[Info],
        demands: &[Binary64],
        input: &PolicyInput,
    ) -> (r: bool)
        requires
            self.wf(),
        ensures
            r == policy_defined(*self, infos@, control_input(demands@, *input)),
    {
        let state = self.max_freq_state(infos);
        match &self.fas_state.buffer {
            None => true,
            Some(buffer) => match buffer.target_fps_state.target_fps {
                None => true,
                Some(target_fps) => buffer.frametime_state.frametimes.len() < FRAMES_NEEDED
                    || is_control_defined(
                    buffer,
                    &self.config,
                    self.fas_state.mode,
                    &state,
                    target_fps,
                    &Self::to_control(demands, input),
                ),
            },
        }
    }

    fn to_control(demands: &[Binary64], input: &PolicyInput) -> (r: ControlInput)
        ensures
            r == control_input(demands@, *input),
    {
        ControlInput {
            target_fps_offset_thermal: input.target_fps_offset_thermal,
            demand: max_demand(demands),
            util_max: input.util_max,
            now: input.now,
        }
    }

    /// Runs the policy on the load demand rates of the policies: by how many kHz to change the
    /// frequency, and whether the frame rate is well below its target.
    ///
    /// The highest frequency of the device is brought up to date first. While the controller
    /// has too little to go by, the frequency stays.
    pub fn do_policy(
        &mut self,
        infos: &[Info],
        demands: &[Binary64],
        input: &PolicyInput,
    ) -> (r: (isize, bool))
        requires
            old(self).wf(),
            policy_due(*old(self)),
            policy_defined(*old(self), infos@, control_input(demands@, *input)),
        ensures
            final(self).wf(),
            *final(self) == (Looper {
                controller_state: controller_after(
                    *old(self),
                    infos@,
                    control_input(demands@, *input),
                ),
                ..*old(self)
            }),
            (r.0 as int, r.1) == policy_result(
                *old(self),
                infos@,
                control_input(demands@, *input),
            ),
    {
        self.controller_state = self.max_freq_state(infos);
        let mut state: ControllerState = self.controller_state;
        let mut result: (isize, bool) = (0, false);
        if let Some(buffer) = &self.fas_state.buffer {
            if let Some(control) = calculate_control(
                buffer,
                &self.config,
                self.fas_state.mode,
                &mut state,
                &Self::to_control(demands, input),
            ) {
                result = control;
            }
        }
        state.is_janked = result.1;
        self.controller_state = state;
        result
    }

    /// Samples the load of the policies and runs the policy on their load demand rates. Where
    /// the run is not defined, only the samples are taken.
    pub fn run_policy(
        &mut self,
        infos: &mut [Info],
        samples: &[Option<LoadSample>],
        input: &PolicyInput,
    ) -> (r: Option<(isize, bool)>)
        requires
            old(self).wf(),
            policy_due(*old(self)),
            samples@.len() == old(infos)@.len(),
            forall|i: int|
                0 <= i < samples@.len() ==> demand_fits(old(infos)@[i], #[trigger] samples@[i]),
        ensures
            final(self).wf(),
            final(infos)@.len() == old(infos)@.len(),
            forall|i: int|
                0 <= i < samples@.len() ==> load_sampled(
                    old(infos)@[i],
                    #[trigger] final(infos)@[i],
                    samples@[i],
                ),
            ({
                let demands = demands_shown(old(infos)@, samples@, samples@.len());
                let control = control_input(demands, *input);
                if policy_defined(*old(self), old(infos)@, control) {
                    &&& r matches Some((change, janked)) && (change as int, janked)
                        == policy_result(*old(self), old(infos)@, control)
                    &&& *final(self) == (Looper {
                        controller_state: controller_after(*old(self), old(infos)@, control),
                        ..*old(self)
                    })
                } else {
                    r is None && *final(self) == *old(self)
                }
            }),
    {
        let demands: Vec<Binary64> = load_demands(infos, samples);
        proof {
            assert forall|i: int| 0 <= i < infos@.len() implies (#[trigger] infos@[i]).freqs
                == old(infos)@[i].freqs by {
                assert(load_sampled(old(infos)@[i], infos@[i], samples@[i]));
            }
            lemma_same_highest_freq(old(infos)@, infos@);
        }
        if self.is_policy_defined(infos, demands.as_slice(), input) {
            Some(self.do_policy(infos, demands.as_slice(), input))
        } else {
            None
        }
    }

    /// Follows the top processes. A game that is gone is forgotten and handed back, to be
    /// detached and announced before the actions are done.
    pub fn retain_topapp(&mut self, topapp_pids: &[i32], now: Moment) -> (r: (
        Option<PackageInfo>,
        Vec<Action>,
    ))
        requires
            old(self).wf(),
        ensures
            final(self).wf(),
            r.0 == (if gone(*old(self), topapp_pids@) {
                Some(old(self).fas_state.buffer->0.package_info)
            } else {
                None
            }),
            (*final(self), r.1@) == retained(*old(self), topapp_pids@, now),
    {
        let mut package: Option<PackageInfo> = None;
        let is_gone: bool = match &self.fas_state.buffer {
            Some(buffer) => !contains_pid(topapp_pids, buffer.package_info.pid),
            None => false,
        };
        let actions: Vec<Action> = if is_gone {
            if let Some(buffer) = self.fas_state.buffer.take() {
                package = Some(buffer.package_info);
            }
            self.disable_fas()
        } else if self.fas_state.buffer.is_none() {
            self.disable_fas()
        } else {
            self.enable_fas(now)
        };
        (package, actions)
    }

    /// Stops working; what is to be done for that.
    pub fn disable_fas(&mut self) -> (r: Vec<Action>)
        ensures
            (*final(self), r@) == disabled(*old(self)),
    {
        let mut actions: Vec<Action> = Vec::new();
        match self.fas_state.working_state {
            State::Working => {
                self.fas_state.working_state = State::NotWorking;
                actions.push(Action::UndoCleanup);
                actions.push(Action::InitDefault);
                actions.push(Action::StopFas);
            },
            State::Waiting => {
                self.fas_state.working_state = State::NotWorking;
            },
            State::NotWorking => {},
        }
        actions
    }

    /// Goes one step towards working; what is to be done for that.
    pub fn enable_fas(&mut self, now: Moment) -> (r: Vec<Action>)
        requires
            old(self).fas_state.working_state == State::Waiting && elapsed(
                old(self).fas_state.delay_timer,
                now,
            ) > DELAY_TIME ==> old(self).fas_state.buffer is Some,
        ensures
            (*final(self), r@) == enabled(*old(self), now),
    {
        let mut actions: Vec<Action> = Vec::new();
        match self.fas_state.working_state {
            State::NotWorking => {
                self.fas_state.working_state = State::Waiting;
                self.fas_state.delay_timer = now;
                actions.push(Action::StartFas);
            },
            State::Waiting => {
                if self.fas_state.delay_timer.elapsed(now) > DELAY_TIME {
                    self.fas_state.working_state = State::Working;
                    actions.push(Action::Cleanup);
                    self.controller_state.target_fps_offset = Binary64::from_u64(0);
                    self.controller_state.was_fps_ok = false;
                    self.controller_state.last_control_mode = false;
                    self.controller_state.last_mode_switch = now.earlier(10_000_000_000);
                    self.last_target_fps = None;
                    if let Some(buffer) = &self.fas_state.buffer {
                        actions.push(Action::InitGame { pid: buffer.package_info.pid });
                    }
                }
            },
            State::Working => {},
        }
        actions
    }

    /// Whether the name of the process that showed a frame has to be looked up: the frame is
    /// taken, and no game is watched yet.
    pub fn needs_name(&self, data: &FasData, topapp_pids: &[i32]) -> (r: bool)
        ensures
            r == (accepted(*data, topapp_pids@) && self.fas_state.buffer is None),
    {
        contains_pid(topapp_pids, data.pid) && data.frametime > 0 && self.fas_state.buffer.is_none()
    }

    /// Takes a frame. Where no game is watched yet, the one with this name is from now on, if
    /// the configuration has frame rates for it.
    pub fn buffer_update(
        &mut self,
        data: &FasData,
        topapp_pids: &[i32],
        name: Option<String>,
    ) -> (r: BufferUpdate)
        requires
            old(self).wf(),
        ensures
            final(self).wf(),
            ({
                let before = *old(self);
                let listing = before.config.inner;
                if !accepted(*data, topapp_pids@) {
                    r == BufferUpdate::Ignored && *final(self) == before
                } else if before.fas_state.buffer is Some {
                    r == BufferUpdate::Push && *final(self) == before
                } else if name is None || configured_target(listing, name->0@, None) {
                    r == BufferUpdate::Ignored && *final(self) == before
                } else {
                    &&& r == BufferUpdate::Opened
                    &&& final(self).fas_state.buffer is Some
                    &&& is_new(
                        final(self).fas_state.buffer->0,
                        final(self).fas_state.buffer->0.target_fps_state.target_fps_config,
                        data.pid,
                        name->0,
                    )
                    &&& configured_target(
                        listing,
                        name->0@,
                        Some(final(self).fas_state.buffer->0.target_fps_state.target_fps_config),
                    )
                    &&& *final(self) == (Looper {
                        fas_state: FasState {
                            buffer: final(self).fas_state.buffer,
                            ..before.fas_state
                        },
                        last_target_fps: None,
                        ..before
                    })
                }
            }),
    {
        if unlikely(!contains_pid(topapp_pids, data.pid) || data.frametime == 0) {
            return BufferUpdate::Ignored;
        }
        if self.fas_state.buffer.is_some() {
            return BufferUpdate::Push;
        }
        let name: String = match name {
            Some(name) => name,
            None => {
                return BufferUpdate::Ignored;
            },
        };
        let target_fps: TargetFps = match self.config.target_fps(name.as_str()) {
            Some(target_fps) => target_fps,
            None => {
                return BufferUpdate::Ignored;
            },
        };
        self.fas_state.buffer = Some(Buffer::new(target_fps, data.pid, name));
        self.last_target_fps = None;
        BufferUpdate::Opened
    }

    /// Follows the windows of the device. A game that is gone is forgotten and handed back, to
    /// be detached and announced before the actions are done.
    pub fn follow_windows(&mut self, topapp_pids: &[i32], freeform: bool, now: Moment) -> (r: (
        Option<PackageInfo>,
        Vec<Action>,
    ))
        requires
            old(self).wf(),
        ensures
            final(self).wf(),
            r.0 == (if gone(*old(self), topapp_pids@) {
                Some(old(self).fas_state.buffer->0.package_info)
            } else {
                None
            }),
            (*final(self), r.1@) == windows_followed(*old(self), topapp_pids@, freeform, now),
    {
        let (package, mut actions) = self.retain_topapp(topapp_pids, now);
        if freeform {
            let mut more: Vec<Action> = self.disable_fas();
            actions.append(&mut more);
        }
        (package, actions)
    }

    /// Reacts to an event. The analyzer is restarted and the actions are done before the policy
    /// is run.
    pub fn react(&mut self, event: Event, now: Moment) -> (r: Reply)
        requires
            old(self).wf(),
        ensures
            final(self).wf(),
            match reaction_to(event) {
                None => {
                    &&& *final(self) == *old(self)
                    &&& !r.do_policy && !r.restart_analyzer && r.actions@.len() == 0
                },
                Some(Reaction::DoPolicy) => {
                    &&& policy_begun(*old(self), *final(self))
                    &&& r.do_policy == policy_due(*old(self))
                    &&& !r.restart_analyzer && r.actions@.len() == 0
                },
                Some(Reaction::DisableFas) => {
                    &&& (*final(self), r.actions@) == disabled(*old(self))
                    &&& !r.do_policy && !r.restart_analyzer
                },
                Some(Reaction::RestartAnalyzerAndDisableFas) => {
                    let (next, restart) = analyzer_restarted(*old(self), now);
                    &&& (*final(self), r.actions@) == disabled(next)
                    &&& !r.do_policy && r.restart_analyzer == restart
                },
            },
    {
        let mut reply = Reply {
            restart_analyzer: false,
            actions: Vec::new(),
            do_policy: false,
        };
        match reaction(event) {
            None => {},
            Some(Reaction::DoPolicy) => {
                reply.do_policy = self.begin_policy();
            },
            Some(Reaction::DisableFas) => {
                reply.actions = self.disable_fas();
            },
            Some(Reaction::RestartAnalyzerAndDisableFas) => {
                reply.restart_analyzer = self.restart_analyzer(now);
                reply.actions = self.disable_fas();
            },
        }
        reply
    }
}

} // verus!
