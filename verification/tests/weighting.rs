use fas_rs::binary64::Binary64;
use fas_rs::cpu_cycles_reader::{Cycles, CyclesReader};
use fas_rs::cpu_info::{Info, InfoError};
use fas_rs::timing::Moment;
use fas_rs::weighting::{ClusterSample, WeightedCalculator};
use std::collections::HashMap;

fn f(x: Binary64) -> f64 {
    f64::from_bits(x.to_bits())
}

fn policy(number: i32, cpu: usize) -> Info {
    let Ok(reader) = CyclesReader::new(&[cpu], &[7]) else {
        panic!("the counter was opened");
    };
    match Info::new(number, vec![1_000_000], vec![cpu], reader, Moment { nanos: 0 }) {
        Ok(info) => info,
        Err(e) => panic!("{e:?}"),
    }
}

// At 1 GHz a tenth of a second has room for 10^8 cycles.
fn sample(step: i128, cpu: i32, cycles: u64) -> ClusterSample {
    ClusterSample {
        now: Moment { nanos: step * 100_000_000 },
        cycles: HashMap::from([(cpu, Cycles(cycles))]),
        freqs_khz: vec![1_000_000],
    }
}

fn samples(step: i128, a: u64, b: u64) -> Vec<ClusterSample> {
    vec![sample(step, 0, a), sample(step, 4, b)]
}

#[test]
fn the_first_update_only_sets_the_baseline() {
    let mut infos = vec![policy(0, 0), policy(4, 4)];
    let mut weights = WeightedCalculator::new(&infos);
    assert_eq!(weights.get(0).map(f), Some(0.0));
    assert_eq!(weights.get(4).map(f), Some(0.0));
    assert!(weights.get(7).is_none());
    assert!(weights.update(&mut infos, &samples(0, 100, 100)).is_ok());
    assert_eq!(weights.get(0).map(f), Some(0.0));
    assert_eq!(infos[0].last_cycles, vec![Some(Cycles(100))]);
    assert!(weights.first_sample_done);
}

#[test]
fn usages_are_smoothed_policy_by_policy() {
    let mut infos = vec![policy(0, 0), policy(4, 4)];
    let mut weights = WeightedCalculator::new(&infos);
    assert!(weights.update(&mut infos, &samples(0, 0, 0)).is_ok());
    assert!(weights.update(&mut infos, &samples(1, 50_000_000, 25_000_000)).is_ok());
    assert_eq!(weights.get(0).map(f), Some(0.5));
    assert_eq!(weights.get(4).map(f), Some(0.25));
    match weights.update(&mut infos, &samples(2, 150_000_000, 25_000_000)) {
        Ok(usages) => {
            assert_eq!(usages.len(), 2);
            assert_eq!(f(usages[&0]), 0.3 * 0.5 + (1.0 - 0.3) * 1.0);
            assert_eq!(f(usages[&4]), 0.3 * 0.25 + (1.0 - 0.3) * 0.0);
        }
        Err(e) => panic!("{e:?}"),
    }
}

#[test]
fn reset_goes_back_to_the_beginning() {
    let mut infos = vec![policy(0, 0), policy(4, 4)];
    let mut weights = WeightedCalculator::new(&infos);
    assert!(weights.update(&mut infos, &samples(0, 0, 0)).is_ok());
    assert!(weights.update(&mut infos, &samples(1, 50_000_000, 25_000_000)).is_ok());
    weights.reset();
    assert_eq!(weights.get(0).map(f), Some(0.0));
    assert_eq!(weights.get(4).map(f), Some(0.0));
    assert!(!weights.first_sample_done);
    assert!(weights.update(&mut infos, &samples(2, 60_000_000, 35_000_000)).is_ok());
    assert_eq!(weights.get(0).map(f), Some(0.0));
    assert!(weights.update(&mut infos, &samples(3, 160_000_000, 35_000_000)).is_ok());
    assert_eq!(weights.get(0).map(f), Some(1.0));
}

#[test]
fn an_update_ends_at_the_first_policy_without_a_sample() {
    let mut infos = vec![policy(0, 0), policy(4, 4)];
    let mut weights = WeightedCalculator::new(&infos);
    let first = vec![sample(0, 0, 5)];
    assert_eq!(weights.update(&mut infos, &first).unwrap_err(), InfoError::SampleUnavailable);
    assert!(!weights.first_sample_done);
    assert!(weights.update(&mut infos, &samples(0, 0, 0)).is_ok());
    let wrong = vec![sample(1, 0, 50_000_000), sample(1, 9, 1)];
    assert_eq!(weights.update(&mut infos, &wrong).unwrap_err(), InfoError::CoreNotInReadings);
    assert_eq!(weights.get(0).map(f), Some(0.5));
    assert_eq!(weights.get(4).map(f), Some(0.0));
}
