use th420_display::single::Single;

fn single(x: f32) -> Single {
    Single { bits: x.to_bits() }
}

fn float(x: Single) -> f32 {
    f32::from_bits(x.bits)
}

/// The same number, down to the sign of zero.
fn assert_same(found: Single, expected: f32, what: &str, a: f32, b: f32) {
    if expected.is_nan() {
        assert!(float(found).is_nan(), "{what} of {a:e} and {b:e}: {found:?}");
    } else {
        assert_eq!(found.bits, expected.to_bits(), "{what} of {a:e} and {b:e}");
    }
}

fn check(a: f32, b: f32) {
    let (x, y) = (single(a), single(b));
    assert_same(x.plus(y), a + b, "sum", a, b);
    assert_same(x.plus(y.minus()), a - b, "difference", a, b);
    assert_same(x.times(y), a * b, "product", a, b);
    assert_same(x.over(y), a / b, "quotient", a, b);
    assert_eq!(x.below(y), a < b);
}

const SPECIAL: [f32; 30] = [
    0.0,
    -0.0,
    1.0,
    -1.0,
    0.5,
    1.5,
    2.0,
    3.0,
    -3.0,
    10.0,
    0.1,
    255.0,
    480.0,
    16777215.0,
    16777216.0,
    16777218.0,
    33554432.0,
    1.0e-10,
    -1.0e10,
    1.0e30,
    3.4028235e38,
    -3.4028235e38,
    1.1754944e-38,
    1.1754942e-38,
    1.0e-45,
    -1.0e-45,
    7.0e-45,
    f32::INFINITY,
    f32::NEG_INFINITY,
    f32::NAN,
];

#[test]
fn operations_agree_on_special_numbers() {
    for a in SPECIAL {
        for b in SPECIAL {
            check(a, b);
        }
    }
}

#[test]
fn operations_agree_on_scattered_numbers() {
    let mut seed: u64 = 0x9e37_79b9_7f4a_7c15;
    let mut next = || {
        seed ^= seed << 13;
        seed ^= seed >> 7;
        seed ^= seed << 17;
        seed
    };
    for _ in 0..100_000 {
        let r = next();
        check(f32::from_bits(r as u32), f32::from_bits((r >> 32) as u32));
    }
    // Numbers of about the same size.
    for _ in 0..100_000 {
        let r = next();
        let a = 0x3000_0000 + (r as u32 & 0x8fff_ffff);
        let b = 0x3000_0000 + ((r >> 32) as u32 & 0x8fff_ffff);
        check(f32::from_bits(a), f32::from_bits(b));
    }
    for _ in 0..10_000 {
        let n = next() >> (next() % 64);
        assert_eq!(Single::count(n).bits, (n as f32).to_bits(), "{n}");
    }
}

#[test]
fn integers_of_numbers() {
    for x in [0.0_f32, 0.4, 0.49999997, 0.5, 1.5, 2.5, 3.7, 254.5, 255.0, 255.4, 256.0, 1.0e9, 1.0e30] {
        for x in [x, -x] {
            assert_eq!(single(x).truncate(0, 255), i64::from(x as u8), "{x}");
            assert_eq!(single(x).round(0, 255), i64::from(x.round() as u8), "{x}");
            let (low, high) = (i64::from(i32::MIN), i64::from(i32::MAX));
            assert_eq!(single(x).truncate(low, high), i64::from(x as i32), "{x}");
            assert_eq!(single(x).round(low, high), i64::from(x.round() as i32), "{x}");
        }
    }
    assert_eq!(single(f32::NAN).round(3, 9), 0);
    assert_eq!(single(f32::INFINITY).round(0, 255), 255);
    assert_eq!(single(f32::NEG_INFINITY).truncate(-7, 255), -7);
}

#[test]
fn numbers_are_held_between_bounds() {
    let (low, high) = (single(0.05), single(8.0));
    assert_eq!(float(single(0.0).clamp(low, high)), 0.05);
    assert_eq!(float(single(9.5).clamp(low, high)), 8.0);
    assert_eq!(float(single(1.25).clamp(low, high)), 1.25);
    assert!(float(single(f32::NAN).clamp(low, high)).is_nan());
    assert_eq!(float(single(2.0).max(single(3.0))), 3.0);
    assert_eq!(float(single(f32::NAN).max(single(3.0))), 3.0);
    assert_eq!(float(single(2.0).max(single(f32::NAN))), 2.0);
}
