use fas_rs::binary64::Binary64;

fn b(x: f64) -> Binary64 {
    Binary64::from_bits(x.to_bits())
}

fn same(x: Binary64, y: f64) -> bool {
    if y.is_nan() {
        x.is_nan()
    } else {
        x.to_bits() == y.to_bits()
    }
}

fn samples() -> Vec<f64> {
    let mut v = vec![
        0.0,
        -0.0,
        1.0,
        -1.0,
        0.1,
        0.05,
        0.15,
        0.6,
        0.85,
        3.0,
        1000.0,
        2_918_400.0,
        1e-9,
        1e9,
        1e300,
        -1e300,
        1e-300,
        f64::MAX,
        f64::MIN_POSITIVE,
        f64::EPSILON,
        5e-324,
        -5e-324,
        f64::INFINITY,
        f64::NEG_INFINITY,
        f64::NAN,
    ];
    let mut state: u64 = 0x9E37_79B9_7F4A_7C15;
    let mut i: usize = 0;
    while i < 400 {
        state ^= state << 13;
        state ^= state >> 7;
        state ^= state << 17;
        v.push(f64::from_bits(state));
        v.push((state >> 11) as f64 / 9_007_199_254_740_992.0);
        i += 1;
    }
    v
}

#[test]
fn arithmetic_agrees_with_the_processor() {
    let v = samples();
    for &x in &v {
        for &y in &v {
            assert!(same(b(x).add(b(y)), x + y), "{x:e} + {y:e}");
            assert!(same(b(x).sub(b(y)), x - y), "{x:e} - {y:e}");
            assert!(same(b(x).mul(b(y)), x * y), "{x:e} * {y:e}");
            assert!(same(b(x).div(b(y)), x / y), "{x:e} / {y:e}");
            assert_eq!(b(x).lt(b(y)), x < y);
            assert_eq!(b(x).le(b(y)), x <= y);
        }
    }
}

#[test]
fn conversions_agree_with_the_processor() {
    for x in samples() {
        assert_eq!(b(x).to_isize(), x as isize);
        assert!(same(b(x).neg(), -x));
        assert_eq!(b(x).is_nan(), x.is_nan());
        assert!(same(b(x).max(b(0.0)), x.max(0.0)) || x == 0.0);
        assert!(same(b(x).min(b(1.0)), x.min(1.0)));
        assert!(same(b(x).clamp(b(-3.0), b(3.0)), x.clamp(-3.0, 3.0)));
    }
    let mut state: u64 = 88_172_645_463_325_252;
    let mut i: usize = 0;
    while i < 2000 {
        state ^= state << 13;
        state ^= state >> 7;
        state ^= state << 17;
        let n = state >> (i % 64);
        assert!(same(Binary64::from_u64(n), n as f64), "{n}");
        assert!(same(Binary64::from_isize(n as isize), (n as isize) as f64), "{n}");
        let wide = (n as u128) * 1_000_000_007;
        assert!(same(Binary64::from_nanos(wide), wide as f64), "{wide}");
        i += 1;
    }
    assert!(same(Binary64::ratio(60, 100), 0.6));
}

#[test]
fn seconds_become_nanoseconds() {
    assert_eq!(b(0.0).to_nanos(), Some(0));
    assert_eq!(b(1.5).to_nanos(), Some(1_500_000_000));
    assert_eq!(b(0.016_666_667).to_nanos(), Some(16_666_667));
    assert_eq!(b(-1.0).to_nanos(), None);
    assert_eq!(b(f64::NAN).to_nanos(), None);
    assert_eq!(b(f64::INFINITY).to_nanos(), None);
    assert_eq!(b(18_446_744_073_709_551_616.0).to_nanos(), None);
    for x in [2.7e-9, 0.999_999_999_6, 1e-10, 5e-10, 123.456_789_012_3, 3.25e8] {
        let expected = std::time::Duration::from_secs_f64(x).as_nanos();
        assert_eq!(b(x).to_nanos(), Some(expected), "{x}");
    }
}
