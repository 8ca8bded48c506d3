use fas_rs::binary64::Binary64;
use fas_rs::cpu_cycles_reader::{Cycles, CyclesReader};
use fas_rs::cpu_info::{FreqMismatch, FreqNode, FreqWrite, Info, InfoError};
use fas_rs::timing::Moment;
use nix::sched::CpuSet;
use std::collections::HashMap;

const MS: i128 = 1_000_000;

fn f(x: Binary64) -> f64 {
    f64::from_bits(x.to_bits())
}

fn at(nanos: i128) -> Moment {
    Moment { nanos }
}

fn policy(freqs: Vec<isize>, cpus: Vec<usize>) -> Info {
    let opened: Vec<i64> = cpus.iter().map(|&c| c as i64 + 100).collect();
    let Ok(reader) = CyclesReader::new(&cpus, &opened) else {
        panic!("all counters were opened");
    };
    match Info::new(4, freqs, cpus, reader, at(0)) {
        Ok(info) => info,
        Err(e) => panic!("{e:?}"),
    }
}

fn cluster() -> Info {
    policy(vec![2_000_000, 600_000, 1_000_000], vec![4, 5])
}

fn cores(list: &[usize]) -> CpuSet {
    let mut set = CpuSet::new();
    for &core in list {
        set.set(core).unwrap();
    }
    set
}

fn ignore(flag: bool) -> HashMap<i32, bool> {
    HashMap::from([(4, flag)])
}

fn readings(a: u64, b: u64) -> HashMap<i32, Cycles> {
    HashMap::from([(4, Cycles(a)), (5, Cycles(b))])
}

fn max(freq: isize) -> FreqWrite {
    FreqWrite { node: FreqNode::MaxFreq, freq }
}

fn min(freq: isize) -> FreqWrite {
    FreqWrite { node: FreqNode::MinFreq, freq }
}

#[test]
fn a_new_policy_runs_at_its_highest_frequency() {
    let info = cluster();
    assert_eq!(info.policy, 4);
    assert_eq!(info.freqs, vec![600_000, 1_000_000, 2_000_000]);
    assert_eq!(info.cur_freq(), 2_000_000);
    assert_eq!(info.max_freq(), 2_000_000);
    assert_eq!(info.affected_cpus(), &[4, 5]);
}

#[test]
fn a_policy_needs_frequencies() {
    let Ok(reader) = CyclesReader::new(&[], &[]) else {
        panic!("nothing to open");
    };
    match Info::new(0, vec![], vec![], reader, at(0)) {
        Err(e) => assert_eq!(e, InfoError::NoFrequencies),
        Ok(_) => panic!("there are no frequencies"),
    }
}

#[test]
fn a_critical_policy_is_pinned() {
    let mut info = cluster();
    let map = ignore(false);
    let plan = info.write_freq(cores(&[1, 5]), 1_234_567, Some(&map), at(0), None).unwrap();
    assert_eq!(plan.writes, vec![max(1_234_567), min(1_234_567)]);
    assert!(plan.mismatch.is_none());
    assert_eq!(info.cur_freq(), 1_234_567);
    assert_eq!(info.verify_freq, Some(1_234_567));
}

#[test]
fn another_policy_is_only_kept_from_going_higher() {
    let mut info = cluster();
    let map = ignore(false);
    let plan = info.write_freq(cores(&[0, 6]), 1_000_000, Some(&map), at(0), None).unwrap();
    assert_eq!(plan.writes, vec![min(600_000), max(1_000_000)]);
    assert_eq!(info.verify_freq, None);
}

#[test]
fn a_frequency_is_held_to_those_of_the_policy() {
    let mut info = cluster();
    let map = ignore(false);
    let low = info.write_freq(cores(&[4]), -5, Some(&map), at(0), None).unwrap();
    assert_eq!(low.writes, vec![max(600_000), min(600_000)]);
    let high = info.write_freq(cores(&[4]), 9_000_000, Some(&map), at(0), None).unwrap();
    assert_eq!(high.writes, vec![max(2_000_000), min(2_000_000)]);
    assert_eq!(info.cur_freq(), 2_000_000);
}

#[test]
fn ignored_writes_only_note_the_frequency() {
    let mut info = cluster();
    let map = ignore(true);
    let plan = info.write_freq(cores(&[4]), 700_000, Some(&map), at(0), None).unwrap();
    assert!(plan.writes.is_empty());
    assert_eq!(info.cur_freq(), 700_000);
    assert_eq!(info.verify_freq, None);
}

#[test]
fn writes_fail_without_a_flag() {
    let mut info = cluster();
    let other = HashMap::from([(0, false)]);
    assert_eq!(
        info.write_freq(cores(&[4]), 700_000, None, at(0), None).unwrap_err(),
        InfoError::IgnoreMapNotInitialized
    );
    assert_eq!(
        info.write_freq(cores(&[4]), 800_000, Some(&other), at(0), None).unwrap_err(),
        InfoError::PolicyIgnoreFlagNotFound
    );
    assert_eq!(info.cur_freq(), 800_000);
}

#[test]
fn a_core_beyond_the_set_is_an_error() {
    let mut info = policy(vec![600_000], vec![4, 1_000_000]);
    let map = ignore(false);
    assert_eq!(
        info.write_freq(cores(&[]), 600_000, Some(&map), at(0), None).unwrap_err(),
        InfoError::CoreOutOfRange
    );
    // The search ends at the first core that is set.
    assert!(info.write_freq(cores(&[4]), 600_000, Some(&map), at(0), None).is_ok());
}

#[test]
fn a_policy_without_frequencies_cannot_be_set() {
    let mut info = cluster();
    info.freqs.clear();
    let map = ignore(false);
    assert_eq!(
        info.write_freq(cores(&[4]), 600_000, Some(&map), at(0), None).unwrap_err(),
        InfoError::NoFrequencies
    );
    assert_eq!(info.reset().unwrap_err(), InfoError::NoFrequencies);
    assert_eq!(info.max_freq(), 0);
}

#[test]
fn a_written_frequency_is_verified_after_three_seconds() {
    let map = ignore(false);
    let set = cores(&[4]);
    let mut info = cluster();
    info.write_freq(set, 1_200_000, Some(&map), at(0), None).unwrap();
    assert!(!info.needs_current_freq(set, Some(&map), at(2_999 * MS)));
    assert!(info.needs_current_freq(set, Some(&map), at(3_000 * MS)));
    assert!(!info.needs_current_freq(cores(&[0]), Some(&map), at(3_000 * MS)));
    assert!(!info.needs_current_freq(set, Some(&ignore(true)), at(3_000 * MS)));
    let wrong = info.write_freq(set, 700_000, Some(&map), at(3_000 * MS), Some(600_000)).unwrap();
    assert_eq!(
        wrong.mismatch,
        Some(FreqMismatch {
            min_acceptable_freq: 1_000_000,
            max_acceptable_freq: 2_000_000,
            current_freq: 600_000,
        })
    );
    assert!(!info.needs_current_freq(set, Some(&map), at(5_999 * MS)));
    let right = info.write_freq(set, 700_000, Some(&map), at(6_000 * MS), Some(1_000_000)).unwrap();
    assert!(right.mismatch.is_none());
}

#[test]
fn a_frequency_of_the_policy_is_expected_exactly() {
    let map = ignore(false);
    let set = cores(&[4]);
    let mut info = cluster();
    info.write_freq(set, 1_000_000, Some(&map), at(0), None).unwrap();
    let off = info.write_freq(set, 1_000_000, Some(&map), at(3_000 * MS), Some(1_000_001)).unwrap();
    assert_eq!(
        off.mismatch,
        Some(FreqMismatch {
            min_acceptable_freq: 1_000_000,
            max_acceptable_freq: 1_000_000,
            current_freq: 1_000_001,
        })
    );
}

#[test]
fn reset_gives_all_frequencies_back() {
    let mut info = cluster();
    let map = ignore(false);
    info.write_freq(cores(&[4]), 700_000, Some(&map), at(0), None).unwrap();
    let freqs = vec![1_000_000, 1_000_000];
    info.cluster_usage(at(MS), &readings(5, 5), &freqs).unwrap();
    assert_eq!(info.reset().unwrap(), vec![max(2_000_000), min(600_000)]);
    assert_eq!(info.verify_freq, None);
    info.restart_sampling(at(2 * MS));
    assert_eq!(info.last_cycles, vec![None, None]);
    assert_eq!(f(info.cluster_usage(at(3 * MS), &readings(9, 9), &freqs).unwrap()), 0.0);
}

#[test]
fn usage_is_averaged_over_the_cores() {
    let mut info = cluster();
    let freqs = vec![1_000_000, 500_000];
    assert_eq!(f(info.cluster_usage(at(0), &readings(100, 100), &freqs).unwrap()), 0.0);
    // In a tenth of a second the first core could run 10^8 cycles, the second 5 * 10^7.
    let now = at(100 * MS);
    let usage = info.cluster_usage(now, &readings(50_000_100, 75_000_100), &freqs).unwrap();
    assert_eq!(f(usage), (0.5 + 1.5) / 2.0);
    assert_eq!(info.last_instant, now);
}

#[test]
fn cpu_usage_is_at_most_one() {
    let mut info = cluster();
    let freqs = vec![500_000, 500_000];
    info.init_sample(at(0), &readings(0, 0), &freqs).unwrap();
    let all = info.cpu_usage(at(100 * MS), &readings(80_000_000, 70_000_000), &freqs).unwrap();
    assert_eq!(f(all), 1.0);
    let half = info.cpu_usage(at(200 * MS), &readings(105_000_000, 95_000_000), &freqs).unwrap();
    assert_eq!(f(half), 0.5);
}

#[test]
fn demand_is_measured_at_the_highest_frequency() {
    let mut info = cluster();
    info.load_demand_rate(at(0), &readings(0, 0)).unwrap();
    info.set_cur_freq(600_000);
    assert_eq!(info.cur_freq(), 600_000);
    let cycles = readings(100_000_000, 50_000_000);
    let demand = info.load_demand_rate(at(100 * MS), &cycles).unwrap();
    assert_eq!(f(demand), (0.5 + 0.25) / 2.0);
    let mut same = cluster();
    let freqs = vec![600_000, 600_000];
    same.cluster_usage(at(0), &readings(0, 0), &freqs).unwrap();
    let usage = same.cluster_usage(at(100 * MS), &cycles, &freqs).unwrap();
    assert!(f(demand) <= f(usage));
}

#[test]
fn demand_is_smoothed_until_a_pause() {
    let mut info = cluster();
    assert_eq!(f(info.load_demand_rate_smoothed(at(0), &readings(0, 0)).unwrap()), 0.0);
    let second = info.load_demand_rate_smoothed(at(100 * MS), &readings(100_000_000, 100_000_000));
    assert_eq!(f(second.unwrap()), 0.25 * 0.5 + (1.0 - 0.25) * 0.0);
    let third = info.load_demand_rate_smoothed(at(200 * MS), &readings(300_000_000, 300_000_000));
    assert_eq!(f(third.unwrap()), 0.25 * 1.0 + (1.0 - 0.25) * 0.125);
    // More than a tenth of a second later the average starts anew.
    let fourth = info.load_demand_rate_smoothed(at(400 * MS), &readings(400_000_000, 400_000_000));
    assert_eq!(f(fourth.unwrap()), 0.25);
}

#[test]
fn a_core_without_a_reading_is_an_error() {
    let mut info = cluster();
    let freqs = vec![1_000_000, 1_000_000];
    info.init_sample(at(0), &readings(1, 2), &freqs).unwrap();
    let part = HashMap::from([(4, Cycles(9))]);
    assert_eq!(
        info.cluster_usage(at(MS), &part, &freqs).unwrap_err(),
        InfoError::CoreNotInReadings
    );
    assert_eq!(info.last_cycles, vec![Some(Cycles(9)), Some(Cycles(2))]);
    assert_eq!(info.last_instant, at(0));
    assert!(info.cpu_usage(at(MS), &part, &freqs).is_err());
    assert!(info.init_sample(at(MS), &part, &freqs).is_err());
    assert!(info.load_demand_rate(at(MS), &part).is_err());
    assert!(info.load_demand_rate_smoothed(at(MS), &part).is_err());
}

#[test]
fn refreshing_changes_nothing() {
    let mut info = cluster();
    info.refresh_usage();
    assert_eq!(info.last_cycles, vec![None, None]);
    assert_eq!(info.cur_freq(), 2_000_000);
}

#[test]
fn a_smoothed_demand_lies_between_what_it_averages() {
    let mut info = cluster();
    let mut total: u64 = 0;
    let mut last = 0.0;
    info.load_demand_rate(at(0), &readings(0, 0)).unwrap();
    for k in 1..200u64 {
        let cycles = k * k * 7919 % 190_000_001;
        total += cycles;
        // The samples are a tenth of a second apart, so that the average never starts anew.
        let now = at(100 * MS * i128::from(k));
        info.last_demand_update = at(100 * MS * i128::from(k - 1));
        let raw = cycles as f64 / (0.1 * (2_000_000.0 * 1000.0));
        let next = f(info.load_demand_rate_smoothed(now, &readings(total, total)).unwrap());
        assert!(raw.min(last) <= next && next <= raw.max(last), "{raw} {last} {next}");
        last = next;
    }
}
