//! What the scheduler does from one call to the next.

use crate::binary64::{at_most, integer, Binary64};
use crate::buffer::BufferWorkingState;
use crate::config::{listed, Config, Mode};
use crate::control::{control_defined, control_step, state_after, ControllerState};
use crate::cpu_info::Info;
use crate::guarantees::{lemma_highest_demand, lemma_highest_freq};
use crate::looper::{
    accepted, analyzer_restarted, control_input, controller_after, enabled, games, highest_freq,
    policy_begun, policy_defined, policy_due, policy_result, reaction_to, windows_followed, Action,
    Event, FasData, Looper, PolicyInput, Reaction, State,
};
use crate::timing::{earlier, elapsed, Moment};
use vstd::prelude::*;

verus! {

/// The controller is given what the device says, and the highest of the demands: the one that no
/// other is above, or zero where none is above that.
pub proof fn lemma_control_input(demands: Seq<Binary64>, input: PolicyInput)
    ensures
        ({
            let given = control_input(demands, input);
            &&& given.target_fps_offset_thermal == input.target_fps_offset_thermal
            &&& given.util_max == input.util_max
            &&& given.now == input.now
            &&& at_most(integer(0), given.demand)
            &&& given.demand == integer(0) || demands.contains(given.demand)
            &&& forall|i: int|
                0 <= i < demands.len() && !(#[trigger] demands[i]).nan() ==> at_most(
                    demands[i],
                    given.demand,
                )
        }),
{
    lemma_highest_demand(demands);
}

/// A frequency is the highest of some policies: it is one of theirs, and none is above it.
pub open spec fn is_top(infos: Seq<Info>, freq: isize) -> bool {
    &&& exists|i: int| 0 <= i < infos.len() && (#[trigger] infos[i]).freqs@.contains(freq)
    &&& forall|i: int, k: int|
        0 <= i < infos.len() && 0 <= k < infos[i].freqs@.len()
            ==> #[trigger] infos[i].freqs@[k] <= freq
}

/// A policy run takes one step of the controller on the frames and the target of the game, with
/// the margin of the mode and with the highest frequency of the policies, where they have any.
/// Without sixty frames or without a target there is nothing to say, and all that is noted is the
/// highest frequency.
pub proof fn lemma_policy_run(
    l: Looper,
    infos: Seq<Info>,
    demands: Seq<Binary64>,
    input: PolicyInput,
    top: isize,
)
    requires
        l.fas_state.buffer is Some,
        is_top(infos, top) || top == l.controller_state.max_freq && forall|i: int|
            0 <= i < infos.len() ==> (#[trigger] infos[i]).freqs@.len() == 0,
    ensures
        ({
            let buffer = l.fas_state.buffer->0;
            let target = buffer.target_fps_state.target_fps;
            let before = ControllerState { max_freq: top, ..l.controller_state };
            let given = control_input(demands, input);
            let after = controller_after(l, infos, given);
            let settings = match l.fas_state.mode {
                Mode::Powersave => l.config.inner.powersave,
                Mode::Balance => l.config.inner.balance,
                Mode::Performance => l.config.inner.performance,
                Mode::Fast => l.config.inner.fast,
            };
            if buffer.frametime_state.frametimes@.len() >= 60 && target is Some {
                let step = control_step(buffer, settings.margin_fps, before, target->0, given);
                &&& policy_result(l, infos, given) == (step.control, step.janked)
                &&& after == (ControllerState {
                    is_janked: step.janked,
                    ..state_after(before, step, input.now)
                })
                &&& policy_defined(l, infos, given) == control_defined(
                    buffer,
                    settings.margin_fps,
                    before,
                    target->0,
                    given,
                )
            } else {
                &&& policy_defined(l, infos, given)
                &&& policy_result(l, infos, given) == (0int, false)
                &&& after == (ControllerState { is_janked: false, ..before })
            }
        }),
{
    lemma_highest_freq(infos);
    if is_top(infos, top) {
        let i = choose|i: int| 0 <= i < infos.len() && (#[trigger] infos[i]).freqs@.contains(top);
        let k = choose|k: int| 0 <= k < infos[i].freqs@.len() && infos[i].freqs@[k] == top;
        assert(infos[i].freqs@.len() > 0);
        let highest = highest_freq(infos)->0;
        assert(infos[i].freqs@[k] <= highest);
        let j = choose|j: int|
            0 <= j < infos.len() && (#[trigger] infos[j]).freqs@.contains(highest);
        let n = choose|n: int| 0 <= n < infos[j].freqs@.len() && infos[j].freqs@[n] == highest;
        assert(infos[j].freqs@[n] <= top);
        assert(highest == top);
    }
}

/// The analyzer is restarted at most every other time that this is asked for, and a second after
/// the last restart at the earliest; then the next time that it is asked for. Nothing else
/// changes.
pub proof fn lemma_restarts_apart(l: Looper, first: Moment, second: Moment)
    requires
        l.wf(),
    ensures
        ({
            let (between, restarted) = analyzer_restarted(l, first);
            let (after, again) = analyzer_restarted(between, second);
            &&& l.analyzer_state.restart_counter == 0 ==> !restarted
            &&& restarted ==> !again
            &&& restarted ==> elapsed(l.analyzer_state.restart_timer, first) >= 1_000_000_000
            &&& !restarted ==> (again <==> elapsed(l.analyzer_state.restart_timer, second)
                >= 1_000_000_000)
            &&& between.analyzer_state.restart_timer == (if restarted {
                first
            } else {
                l.analyzer_state.restart_timer
            })
            &&& between.wf()
            &&& between.fas_state == l.fas_state
            &&& between.controller_state == l.controller_state
            &&& between.config == l.config
            &&& between.last_target_fps == l.last_target_fps
        }),
{
}

/// Taking over a game takes two calls, more than three seconds apart: the first call tells the
/// extensions and starts the wait, the second takes the game over, with a controller that
/// starts at no offset and may follow the demand at once, and from then on nothing is to be done.
pub proof fn lemma_game_taken_over(l: Looper, start: Moment, now: Moment)
    requires
        l.fas_state.working_state == State::NotWorking,
        l.fas_state.buffer is Some,
    ensures
        ({
            let pid = l.fas_state.buffer->0.package_info.pid;
            let (waiting, told) = enabled(l, start);
            let (next, done) = enabled(waiting, now);
            let over = elapsed(start, now) > 3_000_000_000;
            let state = next.controller_state;
            &&& told == seq![Action::StartFas]
            &&& waiting.fas_state.delay_timer == start
            &&& waiting.fas_state.buffer == l.fas_state.buffer
            &&& waiting.fas_state.mode == l.fas_state.mode
            &&& waiting.controller_state == l.controller_state
            &&& waiting.last_target_fps == l.last_target_fps
            &&& waiting.config == l.config && waiting.analyzer_state == l.analyzer_state
            &&& !over ==> next == waiting && done.len() == 0
            &&& over ==> {
                &&& done == seq![Action::Cleanup, Action::InitGame { pid }]
                &&& next.fas_state.working_state == State::Working
                &&& next.fas_state.buffer == l.fas_state.buffer
                &&& next.fas_state.mode == l.fas_state.mode
                &&& next.last_target_fps is None
                &&& next.config == l.config && next.analyzer_state == l.analyzer_state
                &&& state.target_fps_offset == integer(0)
                &&& !state.was_fps_ok && !state.last_control_mode
                &&& now.nanos >= 0 ==> elapsed(state.last_mode_switch, now) == 10_000_000_000
                &&& state.params == l.controller_state.params
                &&& state.is_janked == l.controller_state.is_janked
                &&& state.max_freq == l.controller_state.max_freq
                &&& state.usage_sample_timer == l.controller_state.usage_sample_timer
                &&& enabled(next, now) == (next, Seq::<Action>::empty())
            }
        }),
{
}

/// Following the windows: the game is kept if and only if its process is among the top ones, and
/// there is work afterwards only for a game that is kept and beside no freeform window. Work that
/// ends is undone, in that call.
pub proof fn lemma_windows_followed(l: Looper, topapp_pids: Seq<i32>, freeform: bool, now: Moment)
    requires
        l.wf(),
    ensures
        ({
            let (next, done) = windows_followed(l, topapp_pids, freeform, now);
            let game = l.fas_state.buffer;
            let kept = game is Some && topapp_pids.contains(game->0.package_info.pid);
            let was = l.fas_state.working_state;
            let is = next.fas_state.working_state;
            &&& next.fas_state.buffer == (if kept {
                game
            } else {
                None
            })
            &&& (!kept || freeform) ==> is == State::NotWorking
            &&& (!kept || freeform) && was == State::Working ==> done == seq![
                Action::UndoCleanup,
                Action::InitDefault,
                Action::StopFas,
            ]
            &&& !kept && was != State::Working ==> done.len() == 0
            &&& kept && !freeform ==> (next, done) == enabled(l, now)
            &&& !kept ==> next.controller_state == l.controller_state && next.last_target_fps
                == l.last_target_fps
            &&& next.fas_state.mode == l.fas_state.mode
            &&& next.config == l.config && next.analyzer_state == l.analyzer_state
        }),
{
    let empty = Seq::<Action>::empty();
    let undone = seq![Action::UndoCleanup, Action::InitDefault, Action::StopFas];
    assert(empty + undone == undone);
    assert(undone + empty == undone);
    assert(empty + empty == empty);
}

/// The policy is due while there is work and the target frame rate is the one of the last run or
/// the first one. A run that begins notes the target, and forgets the frames if and only if the
/// target is another one.
pub proof fn lemma_policy_due(before: Looper, after: Looper)
    requires
        before.wf(),
        policy_begun(before, after),
        before.fas_state.working_state == State::Working,
    ensures
        ({
            let game = before.fas_state.buffer->0;
            let target = game.target_fps_state.target_fps;
            let same = before.last_target_fps is None || before.last_target_fps == target;
            let left = after.fas_state.buffer->0;
            &&& policy_due(before) <==> same
            &&& after.last_target_fps == target
            &&& left.target_fps_state == game.target_fps_state
            &&& left.package_info == game.package_info
            &&& same ==> left == game
            &&& !same ==> left.frametime_state.frametimes@.len() == 0
                && left.frametime_state.additional_frametime == 0
            &&& left.frametime_state.current_fps_long == game.frametime_state.current_fps_long
            &&& after.controller_state == before.controller_state
            &&& after.config == before.config
            &&& after.analyzer_state == before.analyzer_state
            &&& after.fas_state.working_state == State::Working
            &&& after.fas_state.mode == before.fas_state.mode
        }),
{
}

/// Without work no policy is due, and beginning a run changes nothing.
pub proof fn lemma_no_policy_without_work(before: Looper, after: Looper)
    requires
        policy_begun(before, after),
        before.fas_state.working_state != State::Working,
    ensures
        !policy_due(before),
        after == before,
{
}

/// What follows from an event turns on what the buffer can be used for: the policy is run if and
/// only if it is usable, the work ends if and only if it is not, and the analyzer is restarted
/// only where in addition no frame came. Without a buffer nothing follows.
pub proof fn lemma_reaction(event: Event)
    ensures
        ({
            let (state, silent) = match event {
                Event::Frame(state) => (state, false),
                Event::Silence(state) => (state, true),
            };
            let usable = state == Some(BufferWorkingState::Usable);
            let reaction = reaction_to(event);
            &&& reaction == Some(Reaction::DoPolicy) <==> usable
            &&& reaction is None <==> state is None
            &&& reaction == Some(Reaction::RestartAnalyzerAndDisableFas) <==> state is Some
                && !usable && silent
            &&& reaction == Some(Reaction::DisableFas) <==> state is Some && !usable && !silent
        }),
{
}

/// A frame counts if and only if its process is one of the top ones and it took some time.
pub proof fn lemma_frame_counts(data: FasData, topapp_pids: Seq<i32>)
    ensures
        accepted(data, topapp_pids) <==> data.frametime != 0 && exists|i: int|
            0 <= i < topapp_pids.len() && #[trigger] topapp_pids[i] == data.pid,
{
}

/// The games of two lists of named processes after one another are those of the first and those of
/// the second, each listed process being one and each other none; a process without a name ends
/// the list.
pub proof fn lemma_games_join(
    config: Config,
    first: Seq<(i32, Option<String>)>,
    second: Seq<(i32, Option<String>)>,
)
    requires
        forall|i: int| 0 <= i < first.len() ==> (#[trigger] first[i]).1 is Some,
    ensures
        games(config, first + second) == games(config, first) + games(config, second),
        first.len() == 1 ==> games(config, first) == (if listed(config.inner, first[0].1->0@) {
            seq![first[0].0]
        } else {
            Seq::<i32>::empty()
        }),
        second.len() > 0 && second[0].1 is None ==> games(config, second).len() == 0,
        second.len() == 0 ==> games(config, second).len() == 0,
    decreases first.len(),
{
    let all = first + second;
    if first.len() == 0 {
        assert(all == second);
        assert(games(config, first) + games(config, second) == games(config, second));
    } else {
        let rest = first.skip(1);
        assert(all[0] == first[0]);
        assert(all.skip(1) == rest + second);
        assert forall|i: int| 0 <= i < rest.len() implies (#[trigger] rest[i]).1 is Some by {
            assert(rest[i] == first[i + 1]);
        }
        lemma_games_join(config, rest, second);
        let here = if listed(config.inner, first[0].1->0@) {
            seq![first[0].0]
        } else {
            Seq::<i32>::empty()
        };
        assert(games(config, first) == here + games(config, rest));
        assert(games(config, all) == here + games(config, rest + second));
        assert(here + (games(config, rest) + games(config, second)) == here + games(config, rest)
            + games(config, second));
        if first.len() == 1 {
            assert(games(config, rest) == Seq::<i32>::empty());
            assert(here + Seq::<i32>::empty() == here);
        }
    }
}

/// Moments and spans: a span back from a moment is that long ago, time adds up, and nothing has
/// passed since a moment that is still to come.
pub proof fn lemma_time_adds_up(first: Moment, second: Moment, third: Moment, span: nat)
    ensures
        first.nanos - span >= i128::MIN ==> elapsed(earlier(first, span), first) == span,
        first.nanos <= second.nanos <= third.nanos ==> elapsed(first, third) == elapsed(
            first,
            second,
        ) + elapsed(second, third),
        second.nanos <= first.nanos ==> elapsed(first, second) == 0,
        first.nanos < second.nanos ==> elapsed(first, second) > 0,
        second.nanos - first.nanos == 1 ==> elapsed(first, second) == 1,
{
}

} // verus!
