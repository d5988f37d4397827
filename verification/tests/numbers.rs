//! The numbers of the library against those of the machine.
use yolo_seg::{Double, Single};

/// A sequence of bits without a visible order.
fn next_bits(state: &mut u64) -> u64 {
    *state = state.wrapping_add(0x9e37_79b9_7f4a_7c15);
    let mut mixed = *state;
    mixed = (mixed ^ (mixed >> 30)).wrapping_mul(0xbf58_476d_1ce4_e5b9);
    mixed = (mixed ^ (mixed >> 27)).wrapping_mul(0x94d0_49bb_1331_11eb);
    mixed ^ (mixed >> 31)
}

fn double(value: f64) -> Double {
    Double { bits: value.to_bits() }
}

fn single(value: f32) -> Single {
    Single { bits: value.to_bits() }
}

fn same(ours: Double, theirs: f64) -> bool {
    let value = f64::from_bits(ours.bits);
    if theirs.is_nan() {
        value.is_nan()
    } else {
        value.to_bits() == theirs.to_bits()
    }
}

/// Numbers where rounding, overflow and signs are easy to get wrong.
fn edge_cases() -> Vec<f64> {
    let mut cases = vec![
        0.0,
        0.1,
        0.5,
        1.0,
        1.5,
        2.0,
        2.5,
        3.0,
        255.0,
        640.0,
        810.0,
        1080.0,
        0.49999999999999994,
        4503599627370495.5,
        9007199254740991.0,
        9007199254740993.0,
        4294967295.0,
        4294967295.5,
        9223372036854775807.0,
        9223372036854774784.0,
        1e300,
        f64::MAX,
        f64::MIN_POSITIVE,
        f64::EPSILON,
        f64::from_bits(1),
        f64::from_bits(0x000f_ffff_ffff_ffff),
        f64::INFINITY,
        f64::NAN,
    ];
    let negative: Vec<f64> = cases.iter().map(|value| -value).collect();
    cases.extend(negative);
    cases
}

fn check_pair(a: f64, b: f64) {
    let (x, y) = (double(a), double(b));
    assert!(same(x.plus(y), a + b), "{a:?} + {b:?}");
    assert!(same(x.minus(y), a - b), "{a:?} - {b:?}");
    assert!(same(x.times(y), a * b), "{a:?} * {b:?}");
    assert!(same(x.over(y), a / b), "{a:?} / {b:?}");
    assert_eq!(x.below(y), a < b, "{a:?} < {b:?}");
    let smaller = f64::from_bits(x.smaller(y).bits);
    let expected = f64::min(a, b);
    assert!(
        smaller == expected || (smaller.is_nan() && expected.is_nan()),
        "min {a:?} {b:?}"
    );
}

fn check_one(a: f64) {
    let x = double(a);
    assert_eq!(x.floor_to_i64(), a.floor() as i64, "floor {a:?}");
    assert_eq!(x.ceil_to_i64(), a.ceil() as i64, "ceil {a:?}");
    assert_eq!(x.round_to_i64(), a.round() as i64, "round {a:?}");
    assert_eq!(x.round_to_u32(), a.round() as u32, "round to u32 {a:?}");
    assert!(same(x.opposite(), -a), "minus {a:?}");
}

#[test]
fn arithmetic_on_edge_cases_is_that_of_the_machine() {
    let cases = edge_cases();
    for &a in &cases {
        check_one(a);
        for &b in &cases {
            check_pair(a, b);
        }
    }
}

#[test]
fn arithmetic_on_any_bits_is_that_of_the_machine() {
    let mut state = 1;
    for _ in 0..20_000 {
        let a = f64::from_bits(next_bits(&mut state));
        let b = f64::from_bits(next_bits(&mut state));
        check_one(a);
        check_pair(a, b);
    }
}

#[test]
fn arithmetic_on_close_exponents_is_that_of_the_machine() {
    let mut state = 2;
    for _ in 0..20_000 {
        let shape = next_bits(&mut state);
        let base = 0x3ff0_0000_0000_0000_u64 + ((shape & 0x3f) << 52);
        let other = 0x3ff0_0000_0000_0000_u64 + (((shape >> 8) & 0x3f) << 52);
        let a = f64::from_bits(base | (next_bits(&mut state) >> 12) | (shape & (1 << 63)));
        let b = f64::from_bits(other | (next_bits(&mut state) >> 12));
        check_one(a);
        check_pair(a, b);
    }
}

#[test]
fn arithmetic_on_tiny_numbers_is_that_of_the_machine() {
    let mut state = 3;
    for _ in 0..10_000 {
        let shape = next_bits(&mut state);
        let a = f64::from_bits(next_bits(&mut state) >> (12 + (shape & 0x1f)));
        let b = f64::from_bits(next_bits(&mut state) >> (8 + ((shape >> 8) & 0x1f)));
        check_pair(a, b);
        let half = f64::from_bits(0x3fe0_0000_0000_0000 | (shape >> 20));
        check_pair(a, half);
    }
}

#[test]
fn integers_convert_as_on_the_machine() {
    let mut state = 4;
    let mut values = vec![
        0,
        1,
        -1,
        i64::MAX,
        i64::MIN,
        9007199254740993,
        -9007199254740993,
        9007199254740995,
    ];
    for _ in 0..10_000 {
        let shape = next_bits(&mut state);
        values.push((next_bits(&mut state) >> (shape & 0x3f)) as i64);
        values.push(next_bits(&mut state) as i64);
    }
    for value in values {
        assert!(same(Double::from_i64(value), value as f64), "{value}");
        assert!(
            same(Double::from_u32(value as u32), f64::from(value as u32)),
            "{value}"
        );
    }
}

#[test]
fn singles_convert_and_compare_as_on_the_machine() {
    let mut state = 5;
    let mut values = vec![
        0.0f32,
        -0.0,
        0.25,
        0.5,
        1.0,
        f32::MIN_POSITIVE,
        f32::from_bits(1),
        f32::from_bits(0x007f_ffff),
        f32::MAX,
        f32::INFINITY,
        f32::NEG_INFINITY,
        f32::NAN,
    ];
    for _ in 0..10_000 {
        values.push(f32::from_bits(next_bits(&mut state) as u32));
    }
    for pair in values.windows(2) {
        let (a, b) = (pair[0], pair[1]);
        assert!(same(single(a).to_double(), f64::from(a)), "{a:?}");
        assert_eq!(single(a).is_finite(), a.is_finite(), "{a:?}");
        assert_eq!(single(a).below(single(b)), a < b, "{a:?} < {b:?}");
    }
}

#[test]
fn named_numbers_are_those_of_the_machine() {
    assert!(f64::from_bits(Double::not_a_number().bits).is_nan());
    assert!(same(Double::infinity(false), f64::INFINITY));
    assert!(same(Double::infinity(true), f64::NEG_INFINITY));
    assert!(same(Double::zero(false), 0.0));
    assert!(same(Double::zero(true), -0.0));
}
