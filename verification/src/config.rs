//! The configuration of the scheduler.

use crate::binary64::Binary64;
use crate::params::{default_params, ControllerParams};
use crate::sorting::{ascending, sorted};
use crate::text::{lemma_up_to, text_before, up_to};
use vstd::hash_map::StringHashMap;
use vstd::hash_set::StringHashSet;
use vstd::prelude::*;

verus! {

/// The frame rates that a game can run at.
#[derive(Debug, Clone, PartialEq, Eq)]
pub enum TargetFps {
    Value(u32),
    Array(Vec<u32>),
}

/// How the scheduler weighs power against speed.
#[derive(Debug, Clone, Copy, PartialEq, Eq, Structural)]
pub enum Mode {
    Powersave,
    Balance,
    Performance,
    Fast,
}

/// How far below its target a game may run, in frames per second.
pub enum MarginFps {
    /// A margin for 60 frames per second, from which others follow in proportion.
    BaseOnly(Binary64),
    /// The same, with other margins for some targets, by the target in decimal digits.
    Advanced { base: Binary64, overrides: StringHashMap<Binary64> },
}

/// The settings of a mode.
pub struct ModeConfig {
    pub margin_fps: MarginFps,
    pub target_core_temperature: isize,
}

/// What the list of games says of one game.
pub enum GameValue {
    /// A list, of which only the integers count.
    Array(Vec<Option<i64>>),
    Integer(i64),
    String(String),
    /// Something else, which is not allowed.
    Other,
}

/// The contents of a configuration file.
pub struct ConfigData {
    pub game_list: StringHashMap<GameValue>,
    pub scene_game_list: StringHashSet,
    pub powersave: ModeConfig,
    pub balance: ModeConfig,
    pub performance: ModeConfig,
    pub fast: ModeConfig,
    pub controller_params: Option<ControllerParams>,
}

/// The configuration of the scheduler.
pub struct Config {
    pub inner: ConfigData,
    pub controller_params: ControllerParams,
}

/// The integers of a list, each cut to 32 bits.
pub open spec fn integers(list: Seq<Option<i64>>) -> Seq<u32>
    decreases list.len(),
{
    if list.len() == 0 {
        Seq::empty()
    } else {
        match list.last() {
            Some(i) => integers(list.drop_last()).push(i as u32),
            None => integers(list.drop_last()),
        }
    }
}

/// The frame rates that are tried where the list of games leaves the choice open.
pub open spec fn usual_tiers() -> Seq<u32> {
    seq![30, 45, 60, 90, 120, 144]
}

/// A package is listed as a game.
pub open spec fn listed(data: ConfigData, pkg: Seq<char>) -> bool {
    data.game_list@.contains_key(pkg) || data.scene_game_list@.contains(pkg)
}

/// What a configuration says of the frame rates of a package. What follows a colon in the name
/// does not count.
pub open spec fn configured_target(data: ConfigData, pkg: Seq<char>, r: Option<TargetFps>) -> bool {
    let name = up_to(pkg, ':');
    if data.game_list@.contains_key(name) {
        match data.game_list@[name] {
            GameValue::Array(list) => r matches Some(TargetFps::Array(v)) && ascending(v@)
                && v@.to_multiset() == integers(list@).to_multiset(),
            GameValue::Integer(i) => r == Some(TargetFps::Value(i as u32)),
            GameValue::String(s) => if s@ == "auto"@ {
                r matches Some(TargetFps::Array(v)) && v@ == usual_tiers()
            } else {
                r is None
            },
            GameValue::Other => r is None,
        }
    } else if data.scene_game_list@.contains(name) {
        r matches Some(TargetFps::Array(v)) && v@ == usual_tiers()
    } else {
        r is None
    }
}

/// A package that has frame rates is listed as a game, by its name up to a colon.
pub proof fn lemma_target_is_listed(data: ConfigData, pkg: Seq<char>, r: Option<TargetFps>)
    requires
        configured_target(data, pkg, r),
    ensures
        r is Some ==> listed(data, up_to(pkg, ':')),
{
}

/// What follows a colon in the name of a package does not count.
pub proof fn lemma_target_of_process(
    data: ConfigData,
    pkg: Seq<char>,
    rest: Seq<char>,
    r: Option<TargetFps>,
)
    requires
        !pkg.contains(':'),
    ensures
        configured_target(data, pkg + seq![':'] + rest, r) == configured_target(data, pkg, r),
{
    lemma_up_to(pkg, rest, ':');
}

impl MarginFps {
    /// A margin with some overrides, the later of two for one target taking effect.
    pub fn advanced(base: Binary64, overrides: Vec<(String, Binary64)>) -> (r: Self)
        ensures
            r matches MarginFps::Advanced { base: b, overrides: map } && b == base && map@
                == overrides_of(overrides@, overrides@.len()),
    {
        let mut map: StringHashMap<Binary64> = StringHashMap::new();
        let mut i: usize = 0;
        while i < overrides.len()
            invariant
                i <= overrides@.len(),
                map@ == overrides_of(overrides@, i as nat),
            decreases overrides@.len() - i,
        {
            map.insert(overrides[i].0.clone(), overrides[i].1);
            i = i + 1;
        }
        MarginFps::Advanced { base, overrides: map }
    }
}

/// The overrides in the first `n` entries of a list.
pub open spec fn overrides_of(list: Seq<(String, Binary64)>, n: nat) -> Map<Seq<char>, Binary64>
    decreases n,
{
    if n == 0 {
        Map::empty()
    } else {
        overrides_of(list, (n - 1) as nat).insert(list[n - 1].0@, list[n - 1].1)
    }
}

impl ConfigData {
    /// A configuration that lists no games.
    pub fn new(
        powersave: ModeConfig,
        balance: ModeConfig,
        performance: ModeConfig,
        fast: ModeConfig,
        controller_params: Option<ControllerParams>,
    ) -> (r: Self)
        ensures
            r.game_list@ == Map::<Seq<char>, GameValue>::empty(),
            r.scene_game_list@ == Set::<Seq<char>>::empty(),
            r.powersave == powersave,
            r.balance == balance,
            r.performance == performance,
            r.fast == fast,
            r.controller_params == controller_params,
    {
        ConfigData {
            game_list: StringHashMap::new(),
            scene_game_list: StringHashSet::new(),
            powersave,
            balance,
            performance,
            fast,
            controller_params,
        }
    }

    /// Lists a game.
    pub fn add_game(&mut self, pkg: String, value: GameValue)
        ensures
            final(self).game_list@ == old(self).game_list@.insert(pkg@, value),
            *final(self) == (ConfigData { game_list: final(self).game_list, ..*old(self) }),
    {
        self.game_list.insert(pkg, value);
    }

    /// Lists a game whose frame rates are left open.
    pub fn add_scene_game(&mut self, pkg: String)
        ensures
            final(self).scene_game_list@ == old(self).scene_game_list@.insert(pkg@),
            *final(self) == (ConfigData {
                scene_game_list: final(self).scene_game_list,
                ..*old(self)
            }),
    {
        self.scene_game_list.insert(pkg);
    }

    /// The settings of a mode.
    pub open spec fn mode(self, mode: Mode) -> ModeConfig {
        match mode {
            Mode::Powersave => self.powersave,
            Mode::Balance => self.balance,
            Mode::Performance => self.performance,
            Mode::Fast => self.fast,
        }
    }
}

fn usual() -> (r: TargetFps)
    ensures
        r matches TargetFps::Array(v) && v@ == usual_tiers(),
{
    let v: Vec<u32> = vec![30, 45, 60, 90, 120, 144];
    assert(v@ == usual_tiers());
    TargetFps::Array(v)
}

impl Config {
    /// The configuration from the contents of a file. Controller parameters that are not in it
    /// have their default values.
    pub fn new(data: ConfigData) -> (r: Self)
        ensures
            r.inner == data,
            r.controller_params == (match data.controller_params {
                Some(params) => params,
                None => default_params(),
            }),
    {
        let controller_params: ControllerParams = match data.controller_params {
            Some(params) => params,
            None => ControllerParams::default(),
        };
        Config { inner: data, controller_params }
    }

    /// Takes over a changed file. The controller parameters stay as they were read first.
    pub fn reload(&mut self, data: ConfigData)
        ensures
            final(self).inner == data,
            final(self).controller_params == old(self).controller_params,
    {
        self.inner = data;
    }

    /// Whether a package is a listed game.
    pub fn need_fas(&self, pkg: &str) -> (r: bool)
        ensures
            r == listed(self.inner, pkg@),
    {
        self.inner.game_list.contains_key(pkg) || self.inner.scene_game_list.contains(pkg)
    }

    /// The frame rates that a package can run at, where it is a game that is listed as it
    /// should be.
    pub fn target_fps(&self, pkg: &str) -> (r: Option<TargetFps>)
        ensures
            configured_target(self.inner, pkg@, r),
    {
        let name = text_before(pkg, ':');
        match self.inner.game_list.get(name) {
            Some(value) => match value {
                GameValue::Array(list) => {
                    let mut v: Vec<u32> = Vec::new();
                    let mut i: usize = 0;
                    assert(list@.take(0) == Seq::<Option<i64>>::empty());
                    while i < list.len()
                        invariant
                            i <= list@.len(),
                            v@ == integers(list@.take(i as int)),
                        decreases list@.len() - i,
                    {
                        assert(list@.take(i + 1).drop_last() == list@.take(i as int));
                        if let Some(n) = list[i] {
                            v.push(
                                #[verifier::truncate]
                                (n as u32),
                            );
                        }
                        i = i + 1;
                    }
                    assert(list@.take(i as int) == list@);
                    Some(TargetFps::Array(sorted(&v)))
                },
                GameValue::Integer(i) => Some(
                    TargetFps::Value(
                        #[verifier::truncate]
                        (*i as u32),
                    ),
                ),
                GameValue::String(s) => {
                    if *s == "auto".to_owned() {
                        Some(usual())
                    } else {
                        None
                    }
                },
                GameValue::Other => None,
            },
            None => {
                if self.inner.scene_game_list.contains(name) {
                    Some(usual())
                } else {
                    None
                }
            },
        }
    }

    /// The settings of a mode.
    pub fn mode_config(&self, mode: Mode) -> (r: &ModeConfig)
        ensures
            *r == self.inner.mode(mode),
    {
        match mode {
            Mode::Powersave => &self.inner.powersave,
            Mode::Balance => &self.inner.balance,
            Mode::Performance => &self.inner.performance,
            Mode::Fast => &self.inner.fast,
        }
    }

    /// The core temperature that a mode aims at.
    pub fn target_core_temperature(&self, mode: Mode) -> (r: isize)
        ensures
            r == self.inner.mode(mode).target_core_temperature,
    {
        self.mode_config(mode).target_core_temperature
    }
}

} // verus!
