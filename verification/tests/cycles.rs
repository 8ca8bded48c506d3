use fas_rs::binary64::Binary64;
use fas_rs::cpu_cycles_reader::{Cycles, CyclesError, CyclesReader, Reading};
use std::collections::HashMap;

fn f(x: Binary64) -> f64 {
    f64::from_bits(x.to_bits())
}

fn reading(cpu: i32, count: isize, value: u64) -> Reading {
    Reading { cpu, count, value }
}

#[test]
fn usage_is_cycles_over_capacity() {
    // One second at 1 GHz has room for 10^9 cycles.
    let reference = Cycles::from_khz(1_000_000);
    assert_eq!(f(Cycles(500_000_000).as_usage(1_000_000_000, reference)), 0.5);
    assert_eq!(f(Cycles(3_000_000_000).as_usage(1_000_000_000, reference)), 3.0);
    let odd = Cycles(12_345_678).as_usage(16_666_667, Cycles::from_khz(2_918_400));
    let expected = 12_345_678.0 / (16_666_667.0 / 1e9 * (2_918_400.0 * 1000.0));
    assert_eq!(f(odd), expected);
}

#[test]
fn usage_without_capacity_is_zero() {
    assert_eq!(f(Cycles(7).as_usage(0, Cycles::from_khz(1_000_000))), 0.0);
    assert_eq!(f(Cycles(7).as_usage(1_000_000_000, Cycles::from_khz(0))), 0.0);
}

#[test]
fn usage_falls_as_the_reference_rises() {
    let low = Cycles(400_000_000).as_usage(1_000_000_000, Cycles::from_khz(800_000));
    let high = Cycles(400_000_000).as_usage(1_000_000_000, Cycles::from_khz(2_000_000));
    assert_eq!(f(low), 0.5);
    assert_eq!(f(high), 0.2);
}

#[test]
fn counters_that_went_back_count_as_zero() {
    assert_eq!(Cycles(5) - Cycles(3), Cycles(2));
    assert_eq!(Cycles(3) - Cycles(5), Cycles(0));
    assert_eq!(Cycles(u64::MAX) - Cycles(0), Cycles(u64::MAX));
}

#[test]
fn reader_covers_the_cores_it_was_opened_for() {
    let Ok(reader) = CyclesReader::new(&[4, 5, 6], &[10, 11, 12]) else {
        panic!("all counters were opened");
    };
    let mut fds = reader.fds();
    fds.sort_unstable();
    assert_eq!(fds, vec![(4, 10), (5, 11), (6, 12)]);
    let readings = [reading(5, 8, 50), reading(4, 8, 40), reading(6, 8, 60)];
    let expected = HashMap::from([(4, Cycles(40)), (5, Cycles(50)), (6, Cycles(60))]);
    match reader.read(&readings) {
        Ok(map) => assert_eq!(map, expected),
        Err(e) => panic!("{e:?}"),
    }
}

#[test]
fn a_counter_that_cannot_be_opened_is_named() {
    match CyclesReader::new(&[4, 5, 6], &[10, -1]) {
        Err(e) => assert_eq!(e, CyclesError::OpenFailed { cpu: 5 }),
        Ok(_) => panic!("a counter failed"),
    }
}

#[test]
fn a_counter_that_cannot_be_read_is_named() {
    let Ok(reader) = CyclesReader::new(&[0, 1], &[3, 4]) else {
        panic!("all counters were opened");
    };
    match reader.read(&[reading(0, 8, 1), reading(1, -1, 0)]) {
        Err(e) => assert_eq!(e, CyclesError::ReadFailed { core: 1 }),
        Ok(_) => panic!("a counter failed"),
    }
}

#[test]
fn no_cores_need_no_counters() {
    let Ok(reader) = CyclesReader::new(&[], &[]) else {
        panic!("nothing to open");
    };
    assert!(reader.fds().is_empty());
    match reader.read(&[]) {
        Ok(map) => assert!(map.is_empty()),
        Err(e) => panic!("{e:?}"),
    }
}
