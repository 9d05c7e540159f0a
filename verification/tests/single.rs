use th420_display::single::Single;

fn single(x: f32) -> Single {
    Single { bits: x.to_bits() }
}

#[test]
fn quotients_are_the_nearest_numbers() {
    for den in [1u32, 2, 3, 7, 10, 100, 480, 999, 1000] {
        for num in (0..2000u32).chain([16_777_215, 12_345_678, 9_999_999]) {
            if num < den * 16_777_216 {
                let want = num as f32 / den as f32;
                assert_eq!(Single::quotient(num, den).bits, want.to_bits(), "{num}/{den}");
            }
        }
    }
    assert_eq!(Single::whole(118).bits, 118.0f32.to_bits());
}

#[test]
fn order_is_that_of_the_numbers() {
    let values = [f32::NEG_INFINITY, -3.5, -0.0, 0.0, 1e-40, 0.1, 1.0, 70.0, f32::INFINITY, f32::NAN];
    for a in values {
        for b in values {
            assert_eq!(single(a).at_most(single(b)), a <= b, "{a} <= {b}");
            assert_eq!(single(a).equals(single(b)), a == b, "{a} == {b}");
        }
        assert_eq!(single(a).nan_test(), a.is_nan());
    }
}

#[test]
fn pixels_are_those_of_single_precision() {
    let mut bits: u32 = 0;
    for step in 0..200_000u32 {
        let x = f32::from_bits(bits);
        assert_eq!(Single { bits }.to_pixel(), (x * 480.0) as i32, "{x}");
        bits = bits.wrapping_add(21_467 + step % 7);
    }
    for px in 0..=516 {
        let norm = px as f32 / 480.0;
        assert_eq!(single(norm).to_pixel(), (norm * 480.0) as i32);
    }
    for x in [f32::NAN, f32::INFINITY, f32::NEG_INFINITY, -0.0, -1.5, 1e30, -1e30, 4_473_924.3] {
        assert_eq!(single(x).to_pixel(), (x * 480.0) as i32, "{x}");
    }
}

#[test]
fn preset_pixels_survive_normalizing() {
    for px in [35u32, 50, 83, 100, 110, 145, 146, 196, 210, 240, 276, 290, 335, 430, 480, 516] {
        assert_eq!(Single::quotient(px, 480).to_pixel(), px as i32);
    }
    // Other pixels may be lost.
    assert_eq!(Single::quotient(63, 480).to_pixel(), 62);
}
