//! Arithmetic of the exact fraction type across its three regimes: finite
//! values, signed infinities, and signed zeros.

use simplex::fraction::Fraction;

#[test]
fn add_inf2() {
    assert_eq!(
        Fraction::from(0),
        Fraction::from(i64::MAX) + Fraction::from(-i64::MAX),
        "Failed INF + -INF."
    );
    assert_eq!(
        Fraction::from(0),
        Fraction::from(-i64::MAX) + Fraction::from(i64::MAX),
        "Failed -INF + INF."
    );
    assert_eq!(
        Fraction::from(i64::MAX),
        Fraction::from(i64::MAX) + Fraction::from(i64::MAX),
        "Failed INF + INF."
    );
    assert_eq!(
        Fraction::from(-i64::MAX),
        Fraction::from(-i64::MAX) + Fraction::from(-i64::MAX),
        "Failed -INF + -INF."
    );
}

#[test]
fn add_inf() {
    assert_eq!(
        Fraction::from(i64::MAX),
        Fraction::from(i64::MAX) + Fraction::from(10),
        "Failed INF + other."
    );
    assert_eq!(
        Fraction::from(-i64::MAX),
        Fraction::from(-i64::MAX) + Fraction::from(10),
        "Failed -INF + other."
    );
    assert_eq!(
        Fraction::from(i64::MAX),
        Fraction::from(10) + Fraction::from(i64::MAX),
        "Failed self + INF."
    );
    assert_eq!(
        Fraction::from(-i64::MAX),
        Fraction::from(10) + Fraction::from(-i64::MAX),
        "Failed self + -INF."
    );
}

#[test]
fn add_0() {
    assert_eq!(
        Fraction::from(8),
        Fraction::new(1, i64::MAX) + Fraction::from(8),
        "Failed 0 + other."
    );
    assert_eq!(
        Fraction::from(-8),
        Fraction::new(1, i64::MAX) + Fraction::from(-8),
        "Failed 0 + -other."
    );
    assert_eq!(
        Fraction::from(7),
        Fraction::from(7) + Fraction::new(1, i64::MAX),
        "Failed self + 0."
    );
    assert_eq!(
        Fraction::from(-7),
        Fraction::from(-7) + Fraction::new(1, i64::MAX),
        "Failed -self + 0."
    );
}

#[test]
fn add_standard() {
    assert_eq!(
        Fraction::from(17),
        Fraction::from(7) + Fraction::from(10),
        "Failed regular addition."
    );
    assert_eq!(
        Fraction::from(-3),
        Fraction::from(7) + Fraction::from(-10),
        "Failed regular addition."
    );
    assert_eq!(
        Fraction::from(3),
        Fraction::from(-7) + Fraction::from(10),
        "Failed regular addition."
    );
    assert_eq!(
        Fraction::from(-17),
        Fraction::from(-7) + Fraction::from(-10),
        "Failed regular addition."
    );
}

#[test]
fn sub_inf2() {
    assert_eq!(
        Fraction::from(0),
        Fraction::from(i64::MAX) - Fraction::from(i64::MAX),
        "Failed INF - INF."
    );
    assert_eq!(
        Fraction::from(i64::MAX),
        Fraction::from(i64::MAX) - Fraction::from(-i64::MAX),
        "Failed INF - -INF."
    );
    assert_eq!(
        Fraction::from(-i64::MAX),
        Fraction::from(-i64::MAX) - Fraction::from(i64::MAX),
        "Failed -INF - INF."
    );
    assert_eq!(
        Fraction::from(0),
        Fraction::from(-i64::MAX) - Fraction::from(-i64::MAX),
        "Failed -INF - -INF."
    );
}

#[test]
fn sub_inf() {
    assert_eq!(
        Fraction::from(i64::MAX),
        Fraction::from(i64::MAX) - Fraction::from(10),
        "Failed INF - other."
    );
    assert_eq!(
        Fraction::from(-i64::MAX),
        Fraction::from(-i64::MAX) - Fraction::from(10),
        "Failed -INF - other."
    );
    assert_eq!(
        Fraction::from(-i64::MAX),
        Fraction::from(10) - Fraction::from(i64::MAX),
        "Failed self - INF."
    );
    assert_eq!(
        Fraction::from(i64::MAX),
        Fraction::from(10) - Fraction::from(-i64::MAX),
        "Failed self - -INF."
    );
}

#[test]
fn sub_0() {
    assert_eq!(
        Fraction::from(-8),
        Fraction::new(1, i64::MAX) - Fraction::from(8),
        "Failed 0 - other."
    );
    assert_eq!(
        Fraction::from(8),
        Fraction::new(1, i64::MAX) - Fraction::from(-8),
        "Failed 0 - -other."
    );
    assert_eq!(
        Fraction::from(7),
        Fraction::from(7) - Fraction::new(1, i64::MAX),
        "Failed self - 0."
    );
    assert_eq!(
        Fraction::from(-7),
        Fraction::from(-7) - Fraction::new(1, i64::MAX),
        "Failed -self - 0."
    );
}

#[test]
fn sub_standard() {
    assert_eq!(
        Fraction::from(-3),
        Fraction::from(7) - Fraction::from(10),
        "Failed regular addition."
    );
    assert_eq!(
        Fraction::from(3),
        Fraction::from(-7) - Fraction::from(-10),
        "Failed regular addition."
    );
    assert_eq!(
        Fraction::from(17),
        Fraction::from(7) - Fraction::from(-10),
        "Failed regular addition."
    );
    assert_eq!(
        Fraction::from(-17),
        Fraction::from(-7) - Fraction::from(10),
        "Failed regular addition."
    );
}

#[test]
fn mul_inf2() {
    assert_eq!(
        Fraction::from(i64::MAX),
        Fraction::from(i64::MAX) * Fraction::from(i64::MAX),
        "Failed INF * INF."
    );
    assert_eq!(
        Fraction::from(-i64::MAX),
        Fraction::from(i64::MAX) * Fraction::from(-i64::MAX),
        "Failed INF * -INF."
    );
    assert_eq!(
        Fraction::from(-i64::MAX),
        Fraction::from(-i64::MAX) * Fraction::from(i64::MAX),
        "Failed -INF * INF."
    );
    assert_eq!(
        Fraction::from(i64::MAX),
        Fraction::from(-i64::MAX) * Fraction::from(-i64::MAX),
        "Failed -INF * -INF."
    );
}

#[test]
fn mul_inf0() {
    assert_eq!(
        Fraction::new(3, 7),
        Fraction::new(i64::MAX, 7) * Fraction::new(3, i64::MAX),
        "Failed INF * 0."
    );
    assert_eq!(
        Fraction::new(-3, 7),
        Fraction::new(-i64::MAX, 7) * Fraction::new(3, i64::MAX),
        "Failed -INF * 0."
    );
    assert_eq!(
        Fraction::new(-3, 7),
        Fraction::new(i64::MAX, 7) * Fraction::new(-3, i64::MAX),
        "Failed INF * -0."
    );
    assert_eq!(
        Fraction::new(3, 7),
        Fraction::new(-i64::MAX, 7) * Fraction::new(-3, i64::MAX),
        "Failed -INF * -0."
    );
}

#[test]
fn mul_0inf() {
    assert_eq!(
        Fraction::new(7, 3),
        Fraction::new(7, i64::MAX) * Fraction::new(i64::MAX, 3),
        "Failed 0 * INF."
    );
    assert_eq!(
        Fraction::new(-7, 3),
        Fraction::new(-7, i64::MAX) * Fraction::new(i64::MAX, 3),
        "Failed -0 * INF."
    );
    assert_eq!(
        Fraction::new(-7, 3),
        Fraction::new(7, i64::MAX) * Fraction::new(-i64::MAX, 3),
        "Failed 0 * -INF."
    );
    assert_eq!(
        Fraction::new(7, 3),
        Fraction::new(-7, i64::MAX) * Fraction::new(-i64::MAX, 3),
        "Failed -0 * -INF."
    );
}

#[test]
fn mul_inf() {
    assert_eq!(
        Fraction::from(-i64::MAX),
        Fraction::from(i64::MAX) * Fraction::from(-2),
        "Failed INF * -other."
    );
    assert_eq!(
        Fraction::from(-i64::MAX),
        Fraction::from(-i64::MAX) * Fraction::from(2),
        "Failed -INF * other."
    );
    assert_eq!(
        Fraction::from(i64::MAX),
        Fraction::from(-i64::MAX) * Fraction::from(-2),
        "Failed -INF * -other."
    );
    assert_eq!(
        Fraction::from(i64::MAX),
        Fraction::from(i64::MAX) * Fraction::from(2),
        "Failed INF * other."
    );
    assert_eq!(
        Fraction::from(-i64::MAX),
        Fraction::from(-10) * Fraction::from(i64::MAX),
        "Failed -self * INF."
    );
    assert_eq!(
        Fraction::from(i64::MAX),
        Fraction::from(-10) * Fraction::from(-i64::MAX),
        "Failed -self * -INF."
    );
    assert_eq!(
        Fraction::from(i64::MAX),
        Fraction::from(10) * Fraction::from(i64::MAX),
        "Failed self * INF."
    );
    assert_eq!(
        Fraction::from(-i64::MAX),
        Fraction::from(10) * Fraction::from(-i64::MAX),
        "Failed self * -INF."
    );
}

#[test]
fn mul_0() {
    assert_eq!(
        Fraction::from(0),
        Fraction::new(1, i64::MAX) * Fraction::from(8),
        "Failed 0 * other."
    );
    assert_eq!(
        Fraction::from(0),
        Fraction::from(7) * Fraction::new(1, i64::MAX),
        "Failed self * 0."
    );
}

#[test]
fn mul_standard() {
    assert_eq!(
        Fraction::from(21),
        Fraction::from(7) * Fraction::from(3),
        "Failed regular addition."
    );
    assert_eq!(
        Fraction::from(-21),
        Fraction::from(-7) * Fraction::from(3),
        "Failed regular addition."
    );
    assert_eq!(
        Fraction::from(-21),
        Fraction::from(7) * Fraction::from(-3),
        "Failed regular addition."
    );
    assert_eq!(
        Fraction::from(21),
        Fraction::from(-7) * Fraction::from(-3),
        "Failed regular addition."
    );
}

#[test]
fn div_inf2() {
    assert_eq!(
        Fraction::new(3, 7),
        Fraction::new(i64::MAX, 7) / Fraction::new(i64::MAX, 3),
        "Failed INF / INF."
    );
    assert_eq!(
        Fraction::new(-3, 7),
        Fraction::new(-i64::MAX, 7) / Fraction::new(i64::MAX, 3),
        "Failed -INF / INF."
    );
    assert_eq!(
        Fraction::new(-3, 7),
        Fraction::new(i64::MAX, 7) / Fraction::new(-i64::MAX, 3),
        "Failed INF / -INF."
    );
    assert_eq!(
        Fraction::new(3, 7),
        Fraction::new(-i64::MAX, 7) / Fraction::new(-i64::MAX, 3),
        "Failed -INF / -INF."
    );
}

#[test]
fn div_inf0() {
    assert_eq!(
        Fraction::from(i64::MAX),
        Fraction::new(i64::MAX, 7) / Fraction::new(3, i64::MAX),
        "Failed INF / 0."
    );
    assert_eq!(
        Fraction::from(-i64::MAX),
        Fraction::new(-i64::MAX, 7) / Fraction::new(3, i64::MAX),
        "Failed -INF / 0."
    );
    assert_eq!(
        Fraction::from(-i64::MAX),
        Fraction::new(i64::MAX, 7) / Fraction::new(-3, i64::MAX),
        "Failed INF / -0."
    );
    assert_eq!(
        Fraction::from(i64::MAX),
        Fraction::new(-i64::MAX, 7) / Fraction::new(-3, i64::MAX),
        "Failed -INF / -0."
    );
}

#[test]
fn div_0inf() {
    assert_eq!(
        Fraction::from(0),
        Fraction::new(7, i64::MAX) / Fraction::new(i64::MAX, 3),
        "Failed 0 / INF."
    );
}

#[test]
fn div_inf() {
    assert_eq!(
        Fraction::from(-i64::MAX),
        Fraction::from(i64::MAX) / Fraction::from(-2),
        "Failed INF / -other."
    );
    assert_eq!(
        Fraction::from(i64::MAX),
        Fraction::from(-i64::MAX) / Fraction::from(-2),
        "Failed -INF / -other."
    );
    assert_eq!(
        Fraction::from(i64::MAX),
        Fraction::from(i64::MAX) / Fraction::from(2),
        "Failed INF / other."
    );
    assert_eq!(
        Fraction::from(-i64::MAX),
        Fraction::from(-i64::MAX) / Fraction::from(2),
        "Failed -INF / other."
    );
    assert_eq!(
        Fraction::from(0),
        Fraction::from(-10) / Fraction::from(i64::MAX),
        "Failed -self / INF."
    );
    assert_eq!(
        Fraction::from(0),
        Fraction::from(10) / Fraction::from(i64::MAX),
        "Failed self / INF."
    );
}

#[test]
fn div_0() {
    assert_eq!(
        Fraction::from(0),
        Fraction::new(1, i64::MAX) / Fraction::from(8),
        "Failed 0 / other."
    );
    assert_eq!(
        Fraction::from(i64::MAX),
        Fraction::from(7) / Fraction::new(1, i64::MAX),
        "Failed self / 0."
    );
    assert_eq!(
        Fraction::from(-i64::MAX),
        Fraction::from(-7) / Fraction::new(1, i64::MAX),
        "Failed -self / 0."
    );
    assert_eq!(
        Fraction::from(-i64::MAX),
        Fraction::from(7) / Fraction::new(-1, i64::MAX),
        "Failed self / -0."
    );
    assert_eq!(
        Fraction::from(i64::MAX),
        Fraction::from(-7) / Fraction::new(-1, i64::MAX),
        "Failed -self / -0."
    );
}

#[test]
fn div_standard() {
    assert_eq!(
        Fraction::new(7, 3),
        Fraction::from(7) / Fraction::from(3),
        "Failed regular addition."
    );
    assert_eq!(
        Fraction::from(-21),
        Fraction::from(-7) / Fraction::new(1, 3),
        "Failed regular addition."
    );
    assert_eq!(
        Fraction::new(-7, 3),
        Fraction::from(7) / Fraction::from(-3),
        "Failed regular addition."
    );
    assert_eq!(
        Fraction::new(7, 3),
        Fraction::from(-7) / Fraction::from(-3),
        "Failed regular addition."
    );
}

#[test]
fn comparisons() {
    assert!(Fraction::new(1, 3) > Fraction::new(1, 4));
    assert!(Fraction::new(1, 6) > Fraction::new(1, 10));
    assert!(Fraction::new(1, i64::MAX) < Fraction::new(1, 4));
    assert!(Fraction::from(i64::MAX) > Fraction::from(4));
    assert!(Fraction::from(-i64::MAX) < Fraction::new(1, 4));
    assert!(Fraction::from(-i64::MAX) == Fraction::from(-i64::MAX));
    assert!(Fraction::from(1) > Fraction::from(-i64::MAX));
    assert!(Fraction::from(-i64::MAX) < Fraction::new(1, -i64::MAX));
    assert!(Fraction::from(i64::MAX) > Fraction::new(1, i64::MAX));
}

#[test]
fn negation() {
    assert_eq!(Fraction::from(1), -Fraction::from(-1));
    assert_eq!(Fraction::from(-7), -Fraction::from(7));
}
