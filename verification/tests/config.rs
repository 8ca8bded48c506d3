use fas_rs::binary64::Binary64;
use fas_rs::config::{Config, ConfigData, GameValue, MarginFps, Mode, ModeConfig, TargetFps};
use fas_rs::params::ControllerParams;

fn mode(margin: f64, temperature: isize) -> ModeConfig {
    ModeConfig {
        margin_fps: MarginFps::BaseOnly(Binary64::from_bits(margin.to_bits())),
        target_core_temperature: temperature,
    }
}

fn data(params: Option<ControllerParams>) -> ConfigData {
    ConfigData::new(mode(3.0, 80), mode(2.0, 85), mode(1.0, 90), mode(0.0, 95), params)
}

fn usual() -> Option<TargetFps> {
    Some(TargetFps::Array(vec![30, 45, 60, 90, 120, 144]))
}

#[test]
fn listed_games_have_targets() {
    let mut d = data(None);
    d.add_game("com.one".to_owned(), GameValue::Integer(60));
    d.add_game("com.many".to_owned(), GameValue::Array(vec![Some(120), None, Some(60), Some(90)]));
    d.add_game("com.auto".to_owned(), GameValue::String("auto".to_owned()));
    d.add_game("com.typo".to_owned(), GameValue::String("automatic".to_owned()));
    d.add_game("com.other".to_owned(), GameValue::Other);
    d.add_scene_game("com.scene".to_owned());
    let c = Config::new(d);
    assert_eq!(c.target_fps("com.one"), Some(TargetFps::Value(60)));
    assert_eq!(c.target_fps("com.many"), Some(TargetFps::Array(vec![60, 90, 120])));
    assert_eq!(c.target_fps("com.auto"), usual());
    assert_eq!(c.target_fps("com.typo"), None);
    assert_eq!(c.target_fps("com.other"), None);
    assert_eq!(c.target_fps("com.scene"), usual());
    assert_eq!(c.target_fps("com.unknown"), None);
    for pkg in ["com.one", "com.many", "com.auto", "com.typo", "com.other", "com.scene"] {
        assert!(c.need_fas(pkg), "{pkg}");
    }
    assert!(!c.need_fas("com.unknown"));
}

#[test]
fn process_suffix_does_not_count_for_targets() {
    let mut d = data(None);
    d.add_game("com.one".to_owned(), GameValue::Integer(60));
    let c = Config::new(d);
    assert_eq!(c.target_fps("com.one:render"), Some(TargetFps::Value(60)));
    assert_eq!(c.target_fps("com.one:a:b"), Some(TargetFps::Value(60)));
    assert!(!c.need_fas("com.one:render"));
}

#[test]
fn game_list_comes_before_scene_list() {
    let mut d = data(None);
    d.add_game("com.both".to_owned(), GameValue::Integer(40));
    d.add_scene_game("com.both".to_owned());
    let c = Config::new(d);
    assert_eq!(c.target_fps("com.both"), Some(TargetFps::Value(40)));
}

#[test]
fn integers_are_cut_to_32_bits() {
    let mut d = data(None);
    d.add_game("com.negative".to_owned(), GameValue::Integer(-1));
    d.add_game("com.wide".to_owned(), GameValue::Array(vec![Some(4_294_967_296 + 30), Some(-2)]));
    let c = Config::new(d);
    assert_eq!(c.target_fps("com.negative"), Some(TargetFps::Value(u32::MAX)));
    assert_eq!(c.target_fps("com.wide"), Some(TargetFps::Array(vec![30, u32::MAX - 1])));
}

#[test]
fn modes_have_their_own_settings() {
    let c = Config::new(data(None));
    assert_eq!(c.target_core_temperature(Mode::Powersave), 80);
    assert_eq!(c.target_core_temperature(Mode::Balance), 85);
    assert_eq!(c.target_core_temperature(Mode::Performance), 90);
    assert_eq!(c.target_core_temperature(Mode::Fast), 95);
    match &c.mode_config(Mode::Performance).margin_fps {
        MarginFps::BaseOnly(base) => assert_eq!(base.to_bits(), f64::to_bits(1.0)),
        MarginFps::Advanced { .. } => panic!("only a base margin was given"),
    }
}

#[test]
fn controller_parameters_are_read_once() {
    let mut params = ControllerParams::default();
    params.mode_residency_ms = 750;
    let mut c = Config::new(data(Some(params)));
    assert_eq!(c.controller_params.mode_residency_ms, 750);
    let mut changed = data(None);
    changed.add_scene_game("com.new".to_owned());
    c.reload(changed);
    assert_eq!(c.controller_params.mode_residency_ms, 750);
    assert!(c.need_fas("com.new"));
    assert_eq!(Config::new(data(None)).controller_params.mode_residency_ms, 500);
}
