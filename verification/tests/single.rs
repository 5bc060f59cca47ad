use binary_star::single::{gt, is_nan, lt, magnitude, INFINITY_BITS, SIGN_BIT};

/// Encodings from every exponent, with fractions at both ends and in the
/// middle of the range, under both signs.
fn sample() -> Vec<u32> {
    let fractions: [u32; 6] = [0, 1, 2, 0x0040_0000, 0x007F_FFFE, 0x007F_FFFF];
    let mut out: Vec<u32> = Vec::new();
    let mut exponent: u32 = 0;
    while exponent < 256 {
        for fraction in fractions {
            let bits = (exponent << 23) | fraction;
            out.push(bits);
            out.push(bits | 0x8000_0000);
        }
        exponent += 1;
    }
    out
}

#[test]
fn constants_encode_what_they_name() {
    assert_eq!(SIGN_BIT, (-0.0f32).to_bits());
    assert_eq!(INFINITY_BITS, f32::INFINITY.to_bits());
}

#[test]
fn magnitude_is_the_absolute_value() {
    for bits in sample() {
        assert_eq!(magnitude(bits), f32::from_bits(bits).abs().to_bits());
    }
    assert_eq!(magnitude((-2.5f32).to_bits()), 2.5f32.to_bits());
    assert_eq!(magnitude(2.5f32.to_bits()), 2.5f32.to_bits());
}

#[test]
fn is_nan_matches_the_hardware() {
    for bits in sample() {
        assert_eq!(is_nan(bits), f32::from_bits(bits).is_nan(), "bits {:#x}", bits);
    }
    assert!(is_nan(f32::NAN.to_bits()));
    assert!(!is_nan(f32::INFINITY.to_bits()));
    assert!(!is_nan(f32::NEG_INFINITY.to_bits()));
    assert!(!is_nan(0));
}

#[test]
fn lt_matches_the_hardware_on_every_pair() {
    let values = sample();
    for &a in &values {
        for &b in &values {
            let expected = f32::from_bits(a) < f32::from_bits(b);
            assert_eq!(lt(a, b), expected, "{:#x} < {:#x}", a, b);
        }
    }
}

#[test]
fn gt_matches_the_hardware_on_every_pair() {
    let values = sample();
    for &a in &values {
        for &b in &values {
            let expected = f32::from_bits(a) > f32::from_bits(b);
            assert_eq!(gt(a, b), expected, "{:#x} > {:#x}", a, b);
        }
    }
}

#[test]
fn the_two_zeros_are_equal() {
    let plus = 0.0f32.to_bits();
    let minus = (-0.0f32).to_bits();
    assert!(!lt(minus, plus));
    assert!(!lt(plus, minus));
    assert!(!gt(minus, plus));
    assert!(!gt(plus, minus));
}

#[test]
fn nan_is_below_and_above_nothing() {
    let nan = f32::NAN.to_bits();
    let one = 1.0f32.to_bits();
    assert!(!lt(nan, one));
    assert!(!lt(one, nan));
    assert!(!gt(nan, one));
    assert!(!gt(one, nan));
    assert!(!lt(nan, nan));
}

#[test]
fn ordinary_numbers_compare_by_value() {
    assert!(lt(1.0f32.to_bits(), 2.0f32.to_bits()));
    assert!(!lt(2.0f32.to_bits(), 1.0f32.to_bits()));
    assert!(lt((-2.0f32).to_bits(), (-1.0f32).to_bits()));
    assert!(lt((-1.0f32).to_bits(), 1.0f32.to_bits()));
    assert!(!lt(1.0f32.to_bits(), 1.0f32.to_bits()));
    assert!(lt(f32::MAX.to_bits(), f32::INFINITY.to_bits()));
    assert!(lt(f32::NEG_INFINITY.to_bits(), f32::MIN.to_bits()));
    assert!(lt(0, 1));
    assert!(gt(1.5f32.to_bits(), 1.49f32.to_bits()));
}
