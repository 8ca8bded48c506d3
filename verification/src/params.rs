//! The parameters of the frequency controller.

use crate::binary64::{integer, ratio, Binary64};
use vstd::prelude::*;

verus! {

/// The parameters of the frequency controller.
#[derive(Debug, Clone, Copy)]
pub struct ControllerParams {
    /// The proportional gain.
    pub kp: Binary64,
    /// The integral gain.
    pub ki: Binary64,
    /// The derivative gain.
    pub kd: Binary64,
    /// The most that one step may change the frequency by, as a share of the highest.
    pub max_step_ratio: Binary64,
    /// The demand below which a step up is weakened in proportion.
    pub util_decay_threshold: Binary64,
    /// The demand below which the frequency is lowered.
    pub demand_low: Binary64,
    /// The demand above which the frequency is raised with care.
    pub demand_high: Binary64,
    /// The step down, as a share of the highest frequency, where the demand is only just low.
    pub demand_step_base: Binary64,
    /// What is added to the step down where there is no demand at all.
    pub demand_step_scale: Binary64,
    /// The most that the frequency is raised by on a high demand, as a share of the highest.
    pub demand_up_max: Binary64,
    /// How long a control mode is kept at least, in milliseconds.
    pub mode_residency_ms: u64,
    /// How far the frame rate may fall below its target before the target counts as missed.
    pub fps_ok_margin: Binary64,
    /// How close the frame rate has to come to a missed target for it to count as met again.
    pub fps_ok_recover_margin: Binary64,
}

/// The parameters that hold where none are configured.
pub open spec fn default_params() -> ControllerParams {
    ControllerParams {
        kp: ratio(3, 10_000),
        ki: integer(0),
        kd: integer(0),
        max_step_ratio: ratio(15, 100),
        util_decay_threshold: ratio(3, 10),
        demand_low: ratio(60, 100),
        demand_high: ratio(85, 100),
        demand_step_base: ratio(5, 100),
        demand_step_scale: ratio(15, 100),
        demand_up_max: ratio(2, 100),
        mode_residency_ms: 500,
        fps_ok_margin: integer(5),
        fps_ok_recover_margin: integer(2),
    }
}

impl ControllerParams {
    fn default_kp() -> (r: Binary64)
        ensures
            r == default_params().kp,
    {
        Binary64::ratio(3, 10_000)
    }

    fn default_ki() -> (r: Binary64)
        ensures
            r == default_params().ki,
    {
        Binary64::from_u64(0)
    }

    fn default_kd() -> (r: Binary64)
        ensures
            r == default_params().kd,
    {
        Binary64::from_u64(0)
    }

    fn default_max_step_ratio() -> (r: Binary64)
        ensures
            r == default_params().max_step_ratio,
    {
        Binary64::ratio(15, 100)
    }

    fn default_util_decay_threshold() -> (r: Binary64)
        ensures
            r == default_params().util_decay_threshold,
    {
        Binary64::ratio(3, 10)
    }

    fn default_demand_low() -> (r: Binary64)
        ensures
            r == default_params().demand_low,
    {
        Binary64::ratio(60, 100)
    }

    fn default_demand_high() -> (r: Binary64)
        ensures
            r == default_params().demand_high,
    {
        Binary64::ratio(85, 100)
    }

    fn default_demand_step_base() -> (r: Binary64)
        ensures
            r == default_params().demand_step_base,
    {
        Binary64::ratio(5, 100)
    }

    fn default_demand_step_scale() -> (r: Binary64)
        ensures
            r == default_params().demand_step_scale,
    {
        Binary64::ratio(15, 100)
    }

    fn default_demand_up_max() -> (r: Binary64)
        ensures
            r == default_params().demand_up_max,
    {
        Binary64::ratio(2, 100)
    }

    fn default_mode_residency_ms() -> (r: u64)
        ensures
            r == default_params().mode_residency_ms,
    {
        500
    }

    fn default_fps_ok_margin() -> (r: Binary64)
        ensures
            r == default_params().fps_ok_margin,
    {
        Binary64::from_u64(5)
    }

    fn default_fps_ok_recover_margin() -> (r: Binary64)
        ensures
            r == default_params().fps_ok_recover_margin,
    {
        Binary64::from_u64(2)
    }
}

impl Default for ControllerParams {
    fn default() -> (r: Self)
        ensures
            r == default_params(),
    {
        ControllerParams {
            kp: Self::default_kp(),
            ki: Self::default_ki(),
            kd: Self::default_kd(),
            max_step_ratio: Self::default_max_step_ratio(),
            util_decay_threshold: Self::default_util_decay_threshold(),
            demand_low: Self::default_demand_low(),
            demand_high: Self::default_demand_high(),
            demand_step_base: Self::default_demand_step_base(),
            demand_step_scale: Self::default_demand_step_scale(),
            demand_up_max: Self::default_demand_up_max(),
            mode_residency_ms: Self::default_mode_residency_ms(),
            fps_ok_margin: Self::default_fps_ok_margin(),
            fps_ok_recover_margin: Self::default_fps_ok_recover_margin(),
        }
    }
}

} // verus!
