//! The recent frames of one game, and the frame rate that it aims at.

use crate::binary64::{at_most, difference, integer, less, quotient, sum, Binary64, MAX_NANOS};
use crate::config::TargetFps;
use crate::sorting::{deduplicated, sorted, strictly_ascending, Sortable};
use crate::timing::{in_seconds, seconds};
use std::collections::VecDeque;
use vstd::prelude::*;

verus! {

/// The lowest frame rate that is taken for a running game.
pub const MIN_FPS: u64 = 15;

/// How far a frame rate may be off a tier and still count as that tier's.
pub const MARGIN: u64 = 3;

/// The number of times that a game has to touch its tier before the next one is tried.
pub const UPGRADE_ATTEMPTS: u32 = 3;

/// The number of calls for which the last target is kept when a game runs above every tier.
pub const COOLDOWN_FRAMES: u32 = 30;

/// Whether a buffer holds enough frames to act on.
#[derive(Debug, Clone, Copy, PartialEq, Eq, Structural)]
pub enum BufferWorkingState {
    Unusable,
    Usable,
}

/// The game that a buffer belongs to.
#[derive(Debug)]
pub struct PackageInfo {
    pub pid: i32,
    pub pkg: String,
}

/// The frame rate that a game aims at, and how it was found.
#[derive(Debug)]
pub struct TargetFpsState {
    pub target_fps: Option<u32>,
    pub target_fps_config: TargetFps,
    pub cooldown_remaining: u32,
    pub upgrade_attempts: u32,
    pub last_target: Option<u32>,
}

/// The recent frame times, the newest first, in nanoseconds, and what follows from them.
#[derive(Debug)]
pub struct FrametimeState {
    pub current_fps_long: Binary64,
    pub current_fps_short: Binary64,
    pub avg_time_long: u128,
    pub avg_time_short: u128,
    pub frametimes: VecDeque<u128>,
    pub additional_frametime: u128,
}

/// What a buffer can be used for.
#[derive(Debug)]
pub struct BufferState {
    pub working_state: BufferWorkingState,
}

/// The recent frames of one game.
#[derive(Debug)]
pub struct Buffer {
    pub package_info: PackageInfo,
    pub target_fps_state: TargetFpsState,
    pub frametime_state: FrametimeState,
    pub state: BufferState,
}

/// A new target frame rate of a game, to be announced to the extensions.
#[derive(Debug)]
pub struct TargetFpsChange {
    pub target_fps: u32,
    pub pkg: String,
}

/// The time that the newest `n` frames took.
pub open spec fn total_time(frames: Seq<u128>, n: nat) -> nat
    decreases n,
{
    if n == 0 {
        0
    } else {
        total_time(frames, (n - 1) as nat) + frames[n - 1] as nat
    }
}

/// The number of frames that an average is taken over.
pub open spec fn frames_taken(len: nat, it_takes: Option<usize>) -> nat {
    match it_takes {
        Some(n) => if n < len {
            n as nat
        } else {
            len
        },
        None => len,
    }
}

/// The average frame time over the newest frames, the time since the last of them included;
/// zero where there is no frame.
pub open spec fn average_frametime(state: FrametimeState, it_takes: Option<usize>) -> nat {
    let n = frames_taken(state.frametimes@.len(), it_takes);
    let total = total_time(state.frametimes@, n) + state.additional_frametime;
    if n == 0 {
        0
    } else if total > MAX_NANOS {
        MAX_NANOS as nat / n
    } else {
        (total / n as int) as nat
    }
}

/// The frame rate of frames of this length: one over the seconds that they take.
pub open spec fn frame_rate(frametime: nat) -> Binary64 {
    quotient(integer(1), in_seconds(frametime))
}

/// The tiers that a configuration lists.
pub open spec fn tiers(config: TargetFps) -> Seq<u32> {
    match config {
        TargetFps::Value(t) => seq![t],
        TargetFps::Array(v) => v@,
    }
}

/// The highest of some tiers.
pub open spec fn highest(s: Seq<u32>) -> u32
    decreases s.len(),
{
    if s.len() <= 1 {
        s[0]
    } else if highest(s.drop_last()) < s.last() {
        s.last()
    } else {
        highest(s.drop_last())
    }
}

/// `fps` is no more than the margin above `tier`.
pub open spec fn within_reach(fps: Binary64, tier: u32) -> bool {
    at_most(fps, sum(integer(tier as int), integer(MARGIN as int)))
}

/// `fps` is at the ceiling of `tier`: no more than the margin off it.
pub open spec fn at_ceiling(fps: Binary64, tier: u32) -> bool {
    at_most(difference(integer(tier as int), integer(MARGIN as int)), fps) && within_reach(
        fps,
        tier,
    )
}

/// The highest of some tiers that `fps` is at the ceiling of.
pub open spec fn ceiling_tier(s: Seq<u32>, fps: Binary64) -> Option<u32>
    decreases s.len(),
{
    if s.len() == 0 {
        None
    } else {
        let rest = ceiling_tier(s.drop_last(), fps);
        if at_ceiling(fps, s.last()) && (rest is None || rest->0 < s.last()) {
            Some(s.last())
        } else {
            rest
        }
    }
}

/// The lowest of some tiers that is above `tier`.
pub open spec fn next_tier(s: Seq<u32>, tier: u32) -> Option<u32>
    decreases s.len(),
{
    if s.len() == 0 {
        None
    } else {
        let rest = next_tier(s.drop_last(), tier);
        if s.last() > tier && (rest is None || s.last() < rest->0) {
            Some(s.last())
        } else {
            rest
        }
    }
}

/// The target frame rate for the current frame rate, and the state that remembers it.
///
/// During a cooldown the last target is kept. A frame rate below the minimum has no target. A
/// game at the ceiling of a tier stays with that tier, but where there are higher ones, is
/// moved up to the next at every third attempt in a row. A game that is at no ceiling aims at
/// the highest tier; one that is above even that tier's margin starts a cooldown.
pub open spec fn next_target(state: TargetFpsState, fps: Binary64) -> (
    Option<u32>,
    TargetFpsState,
) {
    let list = tiers(state.target_fps_config);
    let ceiling = ceiling_tier(list, fps);
    if state.cooldown_remaining > 0 {
        (
            state.last_target,
            TargetFpsState {
                cooldown_remaining: (state.cooldown_remaining - 1) as u32,
                ..state
            },
        )
    } else if less(fps, integer(MIN_FPS as int)) {
        (None, TargetFpsState { upgrade_attempts: 0, ..state })
    } else if ceiling is Some && ceiling->0 < highest(list) {
        if state.upgrade_attempts + 1 < UPGRADE_ATTEMPTS {
            (
                ceiling,
                TargetFpsState {
                    upgrade_attempts: (state.upgrade_attempts + 1) as u32,
                    last_target: ceiling,
                    ..state
                },
            )
        } else {
            let next = next_tier(list, ceiling->0);
            (next, TargetFpsState { upgrade_attempts: 0, last_target: next, ..state })
        }
    } else if list.len() > 0 && within_reach(fps, highest(list)) {
        (
            Some(highest(list)),
            TargetFpsState { upgrade_attempts: 0, last_target: Some(highest(list)), ..state },
        )
    } else {
        (
            if list.len() > 0 {
                Some(highest(list))
            } else {
                None
            },
            TargetFpsState { upgrade_attempts: 0, cooldown_remaining: COOLDOWN_FRAMES, ..state },
        )
    }
}

/// The ceiling tier is the highest of the tiers that the rate is at the ceiling of.
pub proof fn lemma_ceiling_tier(s: Seq<u32>, fps: Binary64)
    ensures
        ceiling_tier(s, fps) is None <==> forall|i: int|
            0 <= i < s.len() ==> !at_ceiling(fps, #[trigger] s[i]),
        ceiling_tier(s, fps) matches Some(t) ==> s.contains(t) && at_ceiling(fps, t) && forall|
            i: int,
        |
            0 <= i < s.len() && at_ceiling(fps, #[trigger] s[i]) ==> s[i] <= t,
    decreases s.len(),
{
    if s.len() > 0 {
        let rest = s.drop_last();
        lemma_ceiling_tier(rest, fps);
        assert(s[s.len() - 1] == s.last());
        assert forall|i: int| 0 <= i < rest.len() implies rest[i] == #[trigger] s[i] by {}
        if let Some(t) = ceiling_tier(rest, fps) {
            let k = choose|k: int| 0 <= k < rest.len() && rest[k] == t;
            assert(s[k] == t);
        }
        if ceiling_tier(s, fps) is None {
            assert forall|i: int| 0 <= i < s.len() implies !at_ceiling(fps, #[trigger] s[i]) by {
                if i < rest.len() {
                    assert(!at_ceiling(fps, rest[i]));
                }
            }
        } else {
            let t = ceiling_tier(s, fps)->0;
            assert forall|i: int|
                0 <= i < s.len() && at_ceiling(fps, #[trigger] s[i]) implies s[i] <= t by {
                if i < rest.len() {
                    assert(at_ceiling(fps, rest[i]));
                }
            }
        }
    }
}

/// The next tier is the lowest of the tiers that are above.
pub proof fn lemma_next_tier(s: Seq<u32>, tier: u32)
    ensures
        next_tier(s, tier) is None <==> forall|i: int| 0 <= i < s.len() ==> #[trigger] s[i] <= tier,
        next_tier(s, tier) matches Some(t) ==> s.contains(t) && t > tier && forall|i: int|
            0 <= i < s.len() && #[trigger] s[i] > tier ==> t <= s[i],
    decreases s.len(),
{
    if s.len() > 0 {
        let rest = s.drop_last();
        lemma_next_tier(rest, tier);
        assert(s[s.len() - 1] == s.last());
        assert forall|i: int| 0 <= i < rest.len() implies rest[i] == #[trigger] s[i] by {}
        if let Some(t) = next_tier(rest, tier) {
            let k = choose|k: int| 0 <= k < rest.len() && rest[k] == t;
            assert(s[k] == t);
        }
        if next_tier(s, tier) is None {
            assert forall|i: int| 0 <= i < s.len() implies #[trigger] s[i] <= tier by {
                if i < rest.len() {
                    assert(rest[i] <= tier);
                }
            }
        } else {
            let t = next_tier(s, tier)->0;
            assert forall|i: int| 0 <= i < s.len() && #[trigger] s[i] > tier implies t <= s[i] by {
                if i < rest.len() {
                    assert(rest[i] > tier);
                }
            }
        }
    }
}

/// The highest of some tiers is one of them, and none is above it.
pub proof fn lemma_highest(s: Seq<u32>)
    requires
        s.len() > 0,
    ensures
        s.contains(highest(s)),
        forall|i: int| 0 <= i < s.len() ==> s[i] <= highest(s),
    decreases s.len(),
{
    if s.len() == 1 {
        assert(s[0] == highest(s));
    } else {
        let t = s.drop_last();
        lemma_highest(t);
        let k = choose|k: int| 0 <= k < t.len() && t[k] == highest(t);
        assert(s[k] == highest(t));
        assert(s[s.len() - 1] == s.last());
        assert forall|i: int| 0 <= i < s.len() implies s[i] <= highest(s) by {
            if i < t.len() {
                assert(t[i] == s[i]);
            }
        }
    }
}

/// A buffer that no frame has come to yet.
pub open spec fn is_new(buffer: Buffer, target_fps: TargetFps, pid: i32, pkg: String) -> bool {
    &&& buffer.package_info == (PackageInfo { pid, pkg })
    &&& buffer.target_fps_state == (TargetFpsState {
        target_fps: None,
        target_fps_config: target_fps,
        cooldown_remaining: 0,
        upgrade_attempts: 0,
        last_target: None,
    })
    &&& buffer.frametime_state.frametimes@ == Seq::<u128>::empty()
    &&& buffer.frametime_state == (FrametimeState {
        current_fps_long: integer(0),
        current_fps_short: integer(0),
        avg_time_long: 0,
        avg_time_short: 0,
        frametimes: buffer.frametime_state.frametimes,
        additional_frametime: 0,
    })
    &&& buffer.state.working_state == BufferWorkingState::Unusable
}

/// The last target is one of the tiers.
pub open spec fn keeps_to_tiers(state: TargetFpsState) -> bool {
    state.last_target matches Some(t) ==> tiers(state.target_fps_config).contains(t)
}

/// A target is always one of the tiers, also the one that is kept during a cooldown.
pub proof fn lemma_target_is_a_tier(state: TargetFpsState, fps: Binary64)
    requires
        keeps_to_tiers(state),
    ensures
        next_target(state, fps).0 matches Some(t) ==> tiers(state.target_fps_config).contains(t),
        keeps_to_tiers(next_target(state, fps).1),
        next_target(state, fps).1.target_fps_config == state.target_fps_config,
{
    let list = tiers(state.target_fps_config);
    lemma_ceiling_tier(list, fps);
    if list.len() > 0 {
        lemma_highest(list);
    }
    if let Some(t) = ceiling_tier(list, fps) {
        lemma_next_tier(list, t);
    }
}

/// The rate is that of a running game at the ceiling of a tier below the highest.
pub open spec fn at_lower_ceiling(config: TargetFps, fps: Binary64) -> bool {
    let ceiling = ceiling_tier(tiers(config), fps);
    !less(fps, integer(MIN_FPS as int)) && ceiling is Some && ceiling->0 < highest(tiers(config))
}

/// A game that is at lower ceilings moves up at every third attempt in a row, and only then:
/// until then it stays with the tier that it is at the ceiling of.
pub proof fn lemma_moves_up_at_third_attempt(
    state: TargetFpsState,
    rates: Seq<Binary64>,
    fps: Binary64,
)
    requires
        state.cooldown_remaining == 0,
        state.upgrade_attempts == 0,
        forall|i: int|
            0 <= i < rates.len() ==> at_lower_ceiling(state.target_fps_config, #[trigger] rates[i]),
        at_lower_ceiling(state.target_fps_config, fps),
    ensures
        ({
            let list = tiers(state.target_fps_config);
            let before = after_targets(state, rates);
            let at = ceiling_tier(list, fps)->0;
            let target = next_target(before, fps).0;
            &&& before.upgrade_attempts == rates.len() % 3
            &&& rates.len() % 3 < 2 ==> target == Some(at)
            &&& rates.len() % 3 == 2 ==> target == next_tier(list, at) && target is Some
                && target->0 > at
        }),
{
    let list = tiers(state.target_fps_config);
    lemma_attempts_counted(state, rates);
    lemma_ceiling_tier(list, fps);
    if list.len() > 0 {
        lemma_highest(list);
        let k = choose|k: int| 0 <= k < list.len() && list[k] == highest(list);
        lemma_next_tier(list, ceiling_tier(list, fps)->0);
        assert(list[k] > ceiling_tier(list, fps)->0);
    }
}

proof fn lemma_attempts_counted(state: TargetFpsState, rates: Seq<Binary64>)
    requires
        state.cooldown_remaining == 0,
        state.upgrade_attempts == 0,
        forall|i: int|
            0 <= i < rates.len() ==> at_lower_ceiling(state.target_fps_config, #[trigger] rates[i]),
    ensures
        after_targets(state, rates).upgrade_attempts == rates.len() % 3,
        after_targets(state, rates).cooldown_remaining == 0,
        after_targets(state, rates).target_fps_config == state.target_fps_config,
    decreases rates.len(),
{
    if rates.len() > 0 {
        let rest = rates.drop_last();
        assert forall|i: int| 0 <= i < rest.len() implies at_lower_ceiling(
            state.target_fps_config,
            #[trigger] rest[i],
        ) by {
            assert(rest[i] == rates[i]);
        }
        lemma_attempts_counted(state, rest);
        assert(at_lower_ceiling(state.target_fps_config, rates[rates.len() - 1]));
    }
}

/// Attempts have to come in a row: any other rate, outside of a cooldown, starts the count
/// anew.
pub proof fn lemma_attempts_in_a_row(state: TargetFpsState, fps: Binary64)
    requires
        state.cooldown_remaining == 0,
        !at_lower_ceiling(state.target_fps_config, fps),
    ensures
        next_target(state, fps).1.upgrade_attempts == 0,
{
}

/// The state after the target has been asked for at these frame rates in turn.
pub open spec fn after_targets(state: TargetFpsState, rates: Seq<Binary64>) -> TargetFpsState
    decreases rates.len(),
{
    if rates.len() == 0 {
        state
    } else {
        next_target(after_targets(state, rates.drop_last()), rates.last()).1
    }
}

/// A cooldown keeps the last target for as many calls as it is long, whatever the frame rates
/// are, and is over after that.
pub proof fn lemma_cooldown_keeps_target(
    state: TargetFpsState,
    rates: Seq<Binary64>,
    fps: Binary64,
)
    requires
        rates.len() <= state.cooldown_remaining,
    ensures
        after_targets(state, rates) == (TargetFpsState {
            cooldown_remaining: (state.cooldown_remaining - rates.len()) as u32,
            ..state
        }),
        rates.len() < state.cooldown_remaining ==> next_target(
            after_targets(state, rates),
            fps,
        ).0 == state.last_target,
    decreases rates.len(),
{
    if rates.len() > 0 {
        lemma_cooldown_keeps_target(state, rates.drop_last(), fps);
    }
}

/// Below the lowest frame rate of a running game, and outside of a cooldown, there is no target.
pub proof fn lemma_too_slow_has_no_target(state: TargetFpsState, fps: Binary64)
    requires
        state.cooldown_remaining == 0,
        less(fps, integer(MIN_FPS as int)),
    ensures
        next_target(state, fps).0 is None,
{
}

impl Buffer {
    /// The times that the buffer holds add up to a span of time.
    pub open spec fn wf(self) -> bool {
        let frames = self.frametime_state.frametimes@;
        &&& frames.len() <= u32::MAX
        &&& total_time(frames, frames.len()) <= MAX_NANOS
        &&& self.frametime_state.additional_frametime <= MAX_NANOS
    }

    /// Whether the times that the buffer holds add up to a span of time.
    pub fn is_wf(&self) -> (r: bool)
        ensures
            r == self.wf(),
    {
        let len: usize = self.frametime_state.frametimes.len();
        if (len as u128) > (u32::MAX as u128) || self.frametime_state.additional_frametime
            > MAX_NANOS {
            return false;
        }
        let mut total: u128 = 0;
        let mut i: usize = 0;
        while i < len
            invariant
                i <= len,
                len == self.frametime_state.frametimes@.len(),
                total == total_time(self.frametime_state.frametimes@, i as nat),
                total <= MAX_NANOS,
            decreases len - i,
        {
            let frame: u128 = self.frametime_state.frametimes[i];
            if frame > MAX_NANOS - total {
                proof {
                    lemma_total_time_grows(
                        self.frametime_state.frametimes@,
                        (i + 1) as nat,
                        len as nat,
                    );
                }
                return false;
            }
            total = total + frame;
            i = i + 1;
        }
        true
    }

    /// A buffer without frames for a game that can run at these frame rates.
    pub fn new(target_fps: TargetFps, pid: i32, pkg: String) -> (r: Self)
        ensures
            r.wf(),
            is_new(r, target_fps, pid, pkg),
    {
        Buffer {
            package_info: PackageInfo { pid, pkg },
            target_fps_state: TargetFpsState {
                target_fps: None,
                target_fps_config: target_fps,
                cooldown_remaining: 0,
                upgrade_attempts: 0,
                last_target: None,
            },
            frametime_state: FrametimeState {
                current_fps_long: Binary64::from_u64(0),
                current_fps_short: Binary64::from_u64(0),
                avg_time_long: 0,
                avg_time_short: 0,
                frametimes: VecDeque::new(),
                additional_frametime: 0,
            },
            state: BufferState { working_state: BufferWorkingState::Unusable },
        }
    }

    /// The average frame time over the newest `it_takes` frames, over all of them where no
    /// number is given.
    pub fn calculate_average_frametime(&self, it_takes: Option<usize>) -> (r: u128)
        requires
            self.wf(),
        ensures
            r == average_frametime(self.frametime_state, it_takes),
            r <= MAX_NANOS,
    {
        let len: usize = self.frametime_state.frametimes.len();
        let n: usize = match it_takes {
            Some(k) => if k < len {
                k
            } else {
                len
            },
            None => len,
        };
        let mut total: u128 = 0;
        let mut i: usize = 0;
        while i < n
            invariant
                i <= n <= len,
                len == self.frametime_state.frametimes@.len(),
                total == total_time(self.frametime_state.frametimes@, i as nat),
                self.wf(),
            decreases n - i,
        {
            proof {
                lemma_total_time_grows(
                    self.frametime_state.frametimes@,
                    (i + 1) as nat,
                    len as nat,
                );
            }
            total = total + self.frametime_state.frametimes[i];
            i = i + 1;
        }
        proof {
            lemma_total_time_grows(self.frametime_state.frametimes@, n as nat, len as nat);
        }
        total = total + self.frametime_state.additional_frametime;
        if total > MAX_NANOS {
            total = MAX_NANOS;
        }
        if n == 0 {
            0
        } else {
            assert(total / (n as u128) <= total) by (nonlinear_arith)
                requires
                    n >= 1,
            ;
            total / (n as u128)
        }
    }

    /// Forgets the frames seen so far.
    fn reset_frametime_state(&mut self)
        ensures
            final(self).frametime_state.frametimes@ == Seq::<u128>::empty(),
            *final(self) == (Buffer {
                frametime_state: FrametimeState {
                    frametimes: final(self).frametime_state.frametimes,
                    ..old(self).frametime_state
                },
                ..*old(self)
            }),
    {
        self.frametime_state.frametimes.clear();
    }

    /// Marks the buffer as holding too little to act on.
    pub fn unusable(&mut self)
        ensures
            *final(self) == (Buffer {
                state: BufferState { working_state: BufferWorkingState::Unusable },
                ..*old(self)
            }),
    {
        self.state.working_state = BufferWorkingState::Unusable;
    }

    /// The announcement of a new target frame rate of this game.
    fn trigger_target_fps_change(&self, target_fps: u32) -> (r: TargetFpsChange)
        ensures
            r.target_fps == target_fps,
            r.pkg@ == self.package_info.pkg@,
    {
        TargetFpsChange { target_fps, pkg: self.package_info.pkg.clone() }
    }

    /// The target frame rate for the current one.
    pub fn target_fps(&mut self) -> (r: Option<u32>)
        ensures
            (r, final(self).target_fps_state) == next_target(
                old(self).target_fps_state,
                old(self).frametime_state.current_fps_long,
            ),
            *final(self) == (Buffer {
                target_fps_state: final(self).target_fps_state,
                ..*old(self)
            }),
    {
        let current_fps = self.frametime_state.current_fps_long;
        let ghost list = tiers(self.target_fps_state.target_fps_config);

        if self.target_fps_state.cooldown_remaining > 0 {
            self.target_fps_state.cooldown_remaining = self.target_fps_state.cooldown_remaining - 1;
            return self.target_fps_state.last_target;
        }
        if current_fps.lt(Binary64::from_u64(MIN_FPS)) {
            self.target_fps_state.upgrade_attempts = 0;
            return None;
        }
        let listed: Vec<u32> = match &self.target_fps_state.target_fps_config {
            TargetFps::Value(t) => {
                let mut one: Vec<u32> = Vec::new();
                one.push(*t);
                one
            },
            TargetFps::Array(arr) => arr.clone(),
        };
        assert(listed@ == list);
        let target_fpses: Vec<u32> = deduplicated(&sorted(&listed));
        proof {
            lemma_last_is_highest(list, target_fpses@);
        }

        let margin = Binary64::from_u64(MARGIN);
        let n: usize = target_fpses.len();
        let mut i: usize = n;
        let mut ceiling: Option<usize> = None;
        while i > 0 && ceiling.is_none()
            invariant
                i <= n == target_fpses@.len(),
                margin == integer(MARGIN as int),
                ceiling matches Some(k) ==> k < n && at_ceiling(
                    current_fps,
                    target_fpses@[k as int],
                ) && forall|j: int|
                    k < j < n ==> !at_ceiling(current_fps, #[trigger] target_fpses@[j]),
                ceiling is None ==> forall|j: int|
                    i <= j < n ==> !at_ceiling(current_fps, #[trigger] target_fpses@[j]),
            decreases i,
        {
            i = i - 1;
            let target = Binary64::from_u64(target_fpses[i] as u64);
            if target.sub(margin).le(current_fps) && current_fps.le(target.add(margin)) {
                ceiling = Some(i);
            }
        }
        proof {
            lemma_ceiling_found(list, target_fpses@, current_fps, ceiling);
        }

        if let Some(k) = ceiling {
            if k < n - 1 {
                if self.target_fps_state.upgrade_attempts < UPGRADE_ATTEMPTS - 1 {
                    let target_fps: u32 = target_fpses[k];
                    self.target_fps_state.upgrade_attempts =
                    self.target_fps_state.upgrade_attempts + 1;
                    self.target_fps_state.last_target = Some(target_fps);
                    return Some(target_fps);
                }
                let next: u32 = target_fpses[k + 1];
                self.target_fps_state.upgrade_attempts = 0;
                self.target_fps_state.last_target = Some(next);
                return Some(next);
            }
        }
        if n > 0 {
            let highest: u32 = target_fpses[n - 1];
            if current_fps.le(Binary64::from_u64(highest as u64).add(margin)) {
                self.target_fps_state.upgrade_attempts = 0;
                self.target_fps_state.last_target = Some(highest);
                return Some(highest);
            }
        }

        self.target_fps_state.upgrade_attempts = 0;
        self.target_fps_state.cooldown_remaining = COOLDOWN_FRAMES;
        if target_fpses.len() > 0 {
            Some(target_fpses[target_fpses.len() - 1])
        } else {
            None
        }
    }

    /// Brings the averages and frame rates up to date.
    ///
    /// The long average is over all frames, the short one over as many as the target frame
    /// rate has in a second.
    pub fn calculate_current_fps(&mut self)
        requires
            old(self).wf(),
        ensures
            final(self).wf(),
            ({
                let before = old(self).frametime_state;
                let long = average_frametime(before, None);
                let (target, state) = next_target(old(self).target_fps_state, frame_rate(long));
                let short = average_frametime(
                    before,
                    match target {
                        Some(t) => Some(t as usize),
                        None => None,
                    },
                );
                *final(self) == (Buffer {
                    target_fps_state: state,
                    frametime_state: FrametimeState {
                        avg_time_long: long as u128,
                        current_fps_long: frame_rate(long),
                        avg_time_short: short as u128,
                        current_fps_short: frame_rate(short),
                        ..before
                    },
                    ..*old(self)
                })
            }),
    {
        let avg_time_long: u128 = self.calculate_average_frametime(None);
        self.frametime_state.avg_time_long = avg_time_long;
        self.frametime_state.current_fps_long = Binary64::from_u64(1).div(seconds(avg_time_long));

        let it_takes: Option<usize> = match self.target_fps() {
            Some(t) => Some(t as usize),
            None => None,
        };
        let avg_time_short: u128 = self.calculate_average_frametime(it_takes);
        self.frametime_state.avg_time_short = avg_time_short;
        self.frametime_state.current_fps_short = Binary64::from_u64(1).div(seconds(avg_time_short));
    }

    /// Brings the target frame rate up to date.
    ///
    /// Where it changes, or there is none, the frames seen so far are forgotten and the buffer
    /// becomes unusable. A new target is handed back to be announced.
    pub fn calculate_target_fps(&mut self) -> (r: Option<TargetFpsChange>)
        ensures
            ({
                let (target, state) = next_target(
                    old(self).target_fps_state,
                    old(self).frametime_state.current_fps_long,
                );
                let changed = old(self).target_fps_state.target_fps != target || target is None;
                &&& r is Some <==> changed && target is Some
                &&& r matches Some(change) ==> Some(change.target_fps) == target && change.pkg@
                    == old(self).package_info.pkg@
                &&& !changed ==> *final(self) == (Buffer { target_fps_state: state, ..*old(self) })
                &&& changed ==> final(self).frametime_state.frametimes@ == Seq::<u128>::empty()
                    && *final(self) == (Buffer {
                    target_fps_state: TargetFpsState { target_fps: target, ..state },
                    frametime_state: FrametimeState {
                        frametimes: final(self).frametime_state.frametimes,
                        ..old(self).frametime_state
                    },
                    state: BufferState { working_state: BufferWorkingState::Unusable },
                    ..*old(self)
                })
            }),
            old(self).wf() ==> final(self).wf(),
    {
        let new_target_fps = self.target_fps();
        let mut change: Option<TargetFpsChange> = None;
        if self.target_fps_state.target_fps != new_target_fps || new_target_fps.is_none() {
            self.reset_frametime_state();
            if let Some(target_fps) = new_target_fps {
                change = Some(self.trigger_target_fps_change(target_fps));
            }
            self.target_fps_state.target_fps = new_target_fps;
            self.unusable();
        }
        change
    }
}

proof fn lemma_total_time_grows(frames: Seq<u128>, m: nat, n: nat)
    requires
        m <= n,
    ensures
        total_time(frames, m) <= total_time(frames, n),
    decreases n,
{
    if m < n {
        lemma_total_time_grows(frames, m, (n - 1) as nat);
    }
}

/// The tier found from the highest down, in tiers that ascend, is the ceiling tier, and the one
/// behind it is the next tier.
proof fn lemma_ceiling_found(
    list: Seq<u32>,
    ordered: Seq<u32>,
    fps: Binary64,
    ceiling: Option<usize>,
)
    requires
        strictly_ascending(ordered),
        forall|x: u32| ordered.contains(x) <==> list.contains(x),
        match ceiling {
            Some(k) => k < ordered.len() && at_ceiling(fps, ordered[k as int]) && forall|j: int|
                k < j < ordered.len() ==> !at_ceiling(fps, #[trigger] ordered[j]),
            None => forall|j: int|
                0 <= j < ordered.len() ==> !at_ceiling(fps, #[trigger] ordered[j]),
        },
    ensures
        match ceiling {
            Some(k) => {
                &&& ceiling_tier(list, fps) == Some(ordered[k as int])
                &&& k < ordered.len() - 1 ==> next_tier(list, ordered[k as int]) == Some(
                    ordered[k + 1],
                ) && ordered[k as int] < ordered.last()
            },
            None => ceiling_tier(list, fps) is None,
        },
{
    lemma_ceiling_tier(list, fps);
    if let Some(t) = ceiling_tier(list, fps) {
        assert(ordered.contains(t));
        let j = choose|j: int| 0 <= j < ordered.len() && ordered[j] == t;
        if let Some(k) = ceiling {
            assert(ordered.contains(ordered[k as int]));
            let i = choose|i: int| 0 <= i < list.len() && list[i] == ordered[k as int];
            assert(list[i] <= t);
            if j < k {
                assert(ordered[j].value() < ordered[k as int].value());
            }
        }
    }
    if let Some(k) = ceiling {
        let t = ordered[k as int];
        assert(ordered.contains(t));
        let i = choose|i: int| 0 <= i < list.len() && list[i] == t;
        assert(at_ceiling(fps, list[i]));
        if k < ordered.len() - 1 {
            let up = ordered[k + 1];
            lemma_next_tier(list, t);
            assert(t.value() < up.value());
            assert(ordered[k as int].value() < ordered[ordered.len() - 1].value());
            assert(ordered.contains(up));
            let m = choose|m: int| 0 <= m < list.len() && list[m] == up;
            assert(list[m] > t);
            let found = next_tier(list, t)->0;
            assert(ordered.contains(found));
            let j = choose|j: int| 0 <= j < ordered.len() && ordered[j] == found;
            if j < k {
                assert(ordered[j].value() < ordered[k as int].value());
            }
            if j > k + 1 {
                assert(ordered[k + 1].value() < ordered[j].value());
            }
        }
    }
}

proof fn lemma_last_is_highest(list: Seq<u32>, ordered: Seq<u32>)
    requires
        strictly_ascending(ordered),
        forall|x: u32| ordered.contains(x) <==> list.contains(x),
    ensures
        ordered.len() > 0 <==> list.len() > 0,
        list.len() > 0 ==> ordered.last() == highest(list),
{
    if list.len() > 0 {
        lemma_highest(list);
        assert(ordered.contains(highest(list)));
        let k = choose|k: int| 0 <= k < ordered.len() && ordered[k] == highest(list);
        assert(ordered.contains(ordered.last()));
        let j = choose|j: int| 0 <= j < list.len() && list[j] == ordered.last();
        if k < ordered.len() - 1 {
            assert(ordered[k].value() < ordered[ordered.len() - 1].value());
        }
    } else if ordered.len() > 0 {
        assert(ordered.contains(ordered[0]));
    }
}

} // verus!
