//! Numbers held by their bits behave as the numbers do.

use blob_world::scalar::{
    Scalar, EIGHT, FRAC_PI_2, FRAC_PI_3, HALF, HUNDREDTH, MILLIONTH, MINUS_ONE, NEARLY_ONE, ONE, PI, TAU, TEN,
    THOUSANDTH, THREE, THREE_TENTHS, TWENTY, ZERO,
};

fn s(x: f32) -> Scalar {
    Scalar(x.to_bits())
}

/// Numbers of every class and size, of both signs.
fn numbers() -> Vec<f32> {
    let mut all = vec![
        0.0,
        f32::from_bits(1),
        f32::from_bits(0x007f_ffff),
        f32::MIN_POSITIVE,
        f32::from_bits(0x0080_0001),
        1e-30,
        0.5,
        0.99,
        1.0,
        f32::from_bits(0x3f80_0001),
        2.0,
        3.0,
        1e30,
        f32::MAX,
        f32::INFINITY,
        f32::NAN,
    ];
    let negatives: Vec<f32> = all.iter().map(|x| -x).collect();
    all.extend(negatives);
    all
}

#[test]
fn constants_are_the_numbers_they_name() {
    let named: Vec<(u32, f32)> = vec![
        (ZERO, 0.0),
        (MINUS_ONE, -1.0),
        (ONE, 1.0),
        (THREE, 3.0),
        (EIGHT, 8.0),
        (TEN, 10.0),
        (TWENTY, 20.0),
        (HALF, 0.5),
        (THREE_TENTHS, 0.3),
        (HUNDREDTH, 0.01),
        (THOUSANDTH, 0.001),
        (MILLIONTH, 1e-6),
        (NEARLY_ONE, 0.99),
        (PI, std::f32::consts::PI),
        (TAU, std::f32::consts::TAU),
        (FRAC_PI_2, std::f32::consts::FRAC_PI_2),
        (FRAC_PI_3, std::f32::consts::PI / 3.0),
    ];
    for (bits, number) in named {
        assert_eq!(bits, number.to_bits());
    }
}

#[test]
fn order_is_that_of_the_numbers() {
    for a in numbers() {
        for b in numbers() {
            assert_eq!(s(a).lt(s(b)), a < b, "{} < {}", a, b);
            assert_eq!(s(a).le(s(b)), a <= b, "{} <= {}", a, b);
        }
        assert_eq!(s(a).is_nan(), a.is_nan());
    }
}

#[test]
fn zeros_of_both_signs_are_equal() {
    assert!(!s(-0.0).lt(s(0.0)));
    assert!(s(-0.0).le(s(0.0)));
    assert!(s(0.0).le(s(-0.0)));
}

#[test]
fn sign_operations_are_exact() {
    for a in numbers() {
        assert_eq!(s(a).abs().0, a.to_bits() & 0x7fff_ffff);
        assert_eq!(s(a).neg().0, a.to_bits() ^ 0x8000_0000);
        assert_eq!(s(a).neg().neg(), s(a));
    }
}

#[test]
fn lesser_of_two_never_exceeds_either() {
    for a in numbers() {
        for b in numbers() {
            let lesser = f32::from_bits(s(a).min(s(b)).0);
            if a.is_nan() && b.is_nan() {
                assert!(lesser.is_nan());
            } else {
                assert_eq!(lesser, a.min(b));
            }
            if !b.is_nan() {
                assert!(s(a).min(s(b)).le(s(b)));
            }
        }
    }
}

#[test]
fn clamp_moves_into_the_range() {
    for a in numbers() {
        let clamped = s(a).clamp(s(-1.0), s(1.0));
        if a.is_nan() {
            assert_eq!(clamped, s(a));
        } else {
            assert_eq!(clamped, s(a.clamp(-1.0, 1.0)));
            assert!(s(-1.0).le(clamped) && clamped.le(s(1.0)));
        }
    }
}
