use algebra::integer::{gcd, xgcd, Rational};
use algebra::math::factor_pairs;
use num::BigInt;

#[test]
fn test_small() {
    let suite: &[(u64, &[(u64, u32)])] = &[
        (0, &[]),
        (1, &[]),
        (2, &[(2, 1)]),
        (3, &[(3, 1)]),
        (4, &[(2, 2)]),
        (5, &[(5, 1)]),
        (10, &[(2, 1), (5, 1)]),
        (100, &[(2, 2), (5, 2)]),
        (200, &[(2, 3), (5, 2)]),
    ];
    for (n, expected) in suite {
        let actual: Vec<_> = factor_pairs(*n);
        assert_eq!(&actual, expected);
    }
}

#[test]
fn gcd_euclidean_scenario() {
    let a: BigInt = 15.into();
    let b: BigInt = 303.into();
    assert_eq!(gcd(&a, &b), BigInt::from(3));
}

#[test]
fn gcd_edge_values() {
    assert_eq!(gcd(&BigInt::from(0), &BigInt::from(0)), BigInt::from(0));
    assert_eq!(gcd(&BigInt::from(0), &BigInt::from(7)), BigInt::from(7));
    assert_eq!(gcd(&BigInt::from(7), &BigInt::from(0)), BigInt::from(7));
    assert_eq!(gcd(&BigInt::from(12), &BigInt::from(18)), BigInt::from(6));
}

#[test]
fn xgcd_bezout() {
    let mut x = BigInt::from(1);
    let mut y = BigInt::from(0);
    let g = xgcd(&BigInt::from(240), &BigInt::from(46), &mut x, &mut y);
    assert_eq!(g, BigInt::from(2));
    assert_eq!(BigInt::from(240) * x + BigInt::from(46) * y, BigInt::from(2));
}

#[test]
fn rational_arithmetic() {
    let half = Rational::new(BigInt::from(1), BigInt::from(2));
    let third = Rational::new(BigInt::from(1), BigInt::from(3));
    let sum = half.add(&third);
    assert_eq!(sum.numerator(), BigInt::from(5));
    assert_eq!(sum.denominator(), BigInt::from(6));
    let diff = half.sub(&third);
    assert_eq!(diff.numerator(), BigInt::from(1));
    assert_eq!(diff.denominator(), BigInt::from(6));
    let prod = half.mul(&third);
    assert_eq!(prod.numerator(), BigInt::from(1));
    assert_eq!(prod.denominator(), BigInt::from(6));
    let quot = half.div(&third);
    assert_eq!(quot.numerator(), BigInt::from(3));
    assert_eq!(quot.denominator(), BigInt::from(2));
}

#[test]
fn rational_normalization() {
    let r = Rational::new(BigInt::from(2), BigInt::from(4));
    assert_eq!(r.numerator(), BigInt::from(1));
    assert_eq!(r.denominator(), BigInt::from(2));
    // A negative denominator moves the sign to the numerator.
    let r = Rational::new(BigInt::from(3), BigInt::from(-6));
    assert_eq!(r.numerator(), BigInt::from(-1));
    assert_eq!(r.denominator(), BigInt::from(2));
    let r = Rational::new(BigInt::from(0), BigInt::from(-7));
    assert_eq!(r.numerator(), BigInt::from(0));
    assert_eq!(r.denominator(), BigInt::from(1));
}
