use rtools::binary::{Binary32, Binary64};

fn b32(x: f32) -> Binary32 {
    Binary32 { bits: x.to_bits() }
}

fn b64(x: f64) -> Binary64 {
    Binary64 { bits: x.to_bits() }
}

fn same32(found: Binary32, expected: f32) -> bool {
    found.bits == expected.to_bits()
        || (f32::from_bits(found.bits).is_nan() && expected.is_nan())
}

fn same64(found: Binary64, expected: f64) -> bool {
    found.bits == expected.to_bits()
        || (f64::from_bits(found.bits).is_nan() && expected.is_nan())
}

fn samples32() -> Vec<f32> {
    let mut found = vec![
        0.0,
        -0.0,
        1.0,
        -1.0,
        0.1,
        0.5,
        2.0,
        3.0,
        12.0,
        200.0,
        1.0e-40,
        -1.0e-45,
        f32::MIN_POSITIVE,
        f32::MAX,
        f32::MIN,
        f32::EPSILON,
        f32::INFINITY,
        f32::NEG_INFINITY,
        f32::NAN,
        16777216.0,
        16777217.0,
        1.5e38,
    ];
    let mut state: u64 = 0x1234_5678_9abc_def1;
    for _ in 0..120 {
        state ^= state << 13;
        state ^= state >> 7;
        state ^= state << 17;
        found.push(f32::from_bits((state >> 16) as u32));
        found.push(((state % 200000) as f32) / 64.0 - 1000.0);
    }
    found
}

fn samples64() -> Vec<f64> {
    let mut found = vec![
        0.0,
        -0.0,
        1.0,
        -1.0,
        0.1,
        100.0,
        1.0e-310,
        -5.0e-324,
        f64::MIN_POSITIVE,
        f64::MAX,
        f64::MIN,
        f64::INFINITY,
        f64::NEG_INFINITY,
        f64::NAN,
        0.5,
        1.5,
        2.5,
        -2.5,
        2147483647.4,
        2147483648.0,
        -2147483648.5,
    ];
    let mut state: u64 = 0x0fed_cba9_8765_4321;
    for _ in 0..120 {
        state ^= state << 13;
        state ^= state >> 7;
        state ^= state << 17;
        found.push(f64::from_bits(state));
        found.push(((state % 20000000) as f64) / 1024.0 - 5000.0);
    }
    found
}

#[test]
fn sums_and_differences_agree_with_hardware() {
    for &a in &samples32() {
        for &b in &samples32() {
            assert!(same32(b32(a).plus(b32(b)), a + b), "{a:?} + {b:?}");
            assert!(same32(b32(a).minus(b32(b)), a - b), "{a:?} - {b:?}");
        }
    }
}

#[test]
fn products_and_quotients_agree_with_hardware() {
    for &a in &samples32() {
        for &b in &samples32() {
            assert!(same32(b32(a).times(b32(b)), a * b), "{a:?} * {b:?}");
            assert!(same32(b32(a).over(b32(b)), a / b), "{a:?} / {b:?}");
        }
    }
}

#[test]
fn comparisons_agree_with_hardware() {
    for &a in &samples32() {
        for &b in &samples32() {
            assert_eq!(b32(a).less(b32(b)), a < b);
            assert_eq!(b32(a).at_most(b32(b)), a <= b);
            assert_eq!(b32(a).order() < b32(b).order(), a.total_cmp(&b).is_lt());
            assert_eq!(b32(a).order() == b32(b).order(), a.total_cmp(&b).is_eq());
            if a != b || a != 0.0 {
                assert!(same32(b32(a).max(b32(b)), a.max(b)), "max {a:?} {b:?}");
                assert!(same32(b32(a).min(b32(b)), a.min(b)), "min {a:?} {b:?}");
            }
        }
        assert!(same32(b32(a).abs(), a.abs()));
        assert_eq!(b32(a).is_finite(), a.is_finite());
        assert_eq!(b32(a).to_index(), a.round() as usize);
    }
}

#[test]
fn whole_numbers_agree_with_hardware() {
    for n in [0u64, 1, 2, 3, 100, 16777215, 16777217, 16777219, 33554433, u32::MAX as u64, u64::MAX] {
        assert!(same32(Binary32::from_whole(n), n as f32), "{n}");
        assert!(same64(Binary64::from_whole(n), n as f64), "{n}");
    }
}

#[test]
fn wide_numbers_agree_with_hardware() {
    for &a in &samples64() {
        for &b in &samples64() {
            assert!(same64(b64(a).times(b64(b)), a * b), "{a:?} * {b:?}");
            assert!(same64(b64(a).over(b64(b)), a / b), "{a:?} / {b:?}");
            assert_eq!(b64(a).less(b64(b)), a < b);
            assert_eq!(b64(a).at_most(b64(b)), a <= b);
            if a != b || a != 0.0 {
                assert!(same64(b64(a).max(b64(b)), a.max(b)), "max {a:?} {b:?}");
            }
        }
        assert_eq!(b64(a).to_i32(), a.round() as i32, "{a:?}");
    }
}

#[test]
fn a_number_over_itself_is_one() {
    for &a in &samples32() {
        if a.is_finite() && a != 0.0 {
            assert_eq!(b32(a).over(b32(a)), b32(1.0));
        }
    }
}

#[test]
fn adding_zero_keeps_a_number() {
    for &a in &samples32() {
        if a.is_finite() && a != 0.0 {
            assert_eq!(b32(a).plus(b32(0.0)), b32(a));
        }
    }
}
