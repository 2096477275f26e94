use vyges_sta::float32::F32;
use vyges_sta::fuzzy::{equal, greater, less};

fn f(x: f32) -> F32 {
    F32(x.to_bits())
}

/// A value within 1e-6 (relative) of the incumbent is not greater: of two close wire delays the
/// second does not replace the first for max.
#[test]
fn a_value_within_one_ppm_is_not_greater() {
    let (a, b) = (f(f32::from_bits(0x2b30_3d9a)), f(f32::from_bits(0x2b30_3d9d)));
    assert!(b.gt(a));
    assert!(!greater(b, a));
    assert!(!less(a, b));
    assert!(equal(a, b));
}

/// Relative 1e-6 of the larger magnitude, strictly.
#[test]
fn the_tolerance_is_relative_and_strict() {
    assert!(greater(f(1.0 + 2e-6), f(1.0)));
    assert!(!greater(f(1.0 + 5e-7), f(1.0)));
}

/// Against zero the tolerance is absolute 1e-15.
#[test]
fn zero_uses_an_absolute_tolerance() {
    assert!(equal(f(0.0), f(1e-16)));
    assert!(!equal(f(0.0), f(1e-14)));
    assert!(greater(f(1e-14), f(0.0)));
    assert!(!greater(f(1e-16), f(0.0)));
}

/// The initial values of a min/max merge (1e30 and -1e30) are beaten by any ordinary value.
#[test]
fn init_values_are_beaten() {
    assert!(greater(f(1e-12), f(-1e30)));
    assert!(less(f(1e-12), f(1e30)));
}

/// Fuzzy equality is symmetric, and exactly one of less, equal and greater holds of two numbers.
#[test]
fn fuzzy_comparison_is_a_trichotomy() {
    let values = [0.0, -0.0, 1e-16, -1e-16, 1e-14, 1.0, 1.0 + 5e-7, 1.0 + 2e-6, -1.0, 1e30, -1e30, 1e-40];
    for a in values {
        for b in values {
            let (a, b) = (f(a), f(b));
            let holds = [less(a, b), equal(a, b), greater(a, b)];
            assert_eq!(holds.iter().filter(|x| **x).count(), 1);
            assert_eq!(equal(a, b), equal(b, a));
            assert_eq!(less(a, b), greater(b, a));
        }
    }
}

/// A nan is neither less, equal nor greater.
#[test]
fn a_nan_compares_with_nothing() {
    let nan = f(f32::NAN);
    for x in [f(0.0), f(1.0), nan, f(f32::INFINITY)] {
        assert!(!less(nan, x) && !equal(nan, x) && !greater(nan, x));
        assert!(!less(x, nan) && !equal(x, nan) && !greater(x, nan));
    }
}
