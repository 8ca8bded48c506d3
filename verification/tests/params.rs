use fas_rs::params::ControllerParams;

#[test]
fn default_parameters() {
    let p = ControllerParams::default();
    let values = [
        (p.kp, 0.0003),
        (p.ki, 0.0),
        (p.kd, 0.0),
        (p.max_step_ratio, 0.15),
        (p.util_decay_threshold, 0.3),
        (p.demand_low, 0.60),
        (p.demand_high, 0.85),
        (p.demand_step_base, 0.05),
        (p.demand_step_scale, 0.15),
        (p.demand_up_max, 0.02),
        (p.fps_ok_margin, 5.0),
        (p.fps_ok_recover_margin, 2.0),
    ];
    for (value, expected) in values {
        assert_eq!(value.to_bits(), f64::to_bits(expected), "{expected}");
    }
    assert_eq!(p.mode_residency_ms, 500);
}
