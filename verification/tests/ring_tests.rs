use algebra::math::CarmichaelLambda;
use algebra::ring::{EuclidDomain, Factor, UFD};
use num::BigInt;

#[test]
fn integer_test_small() {
    let suite: &[(u64, &[Factor<u64>])] = &[
        (0, &[]),
        (1, &[]),
        (2, &[Factor { p: 2, e: 1 }]),
        (3, &[Factor { p: 3, e: 1 }]),
        (4, &[Factor { p: 2, e: 2 }]),
        (5, &[Factor { p: 5, e: 1 }]),
        (10, &[Factor { p: 2, e: 1 }, Factor { p: 5, e: 1 }]),
        (100, &[Factor { p: 2, e: 2 }, Factor { p: 5, e: 2 }]),
        (200, &[Factor { p: 2, e: 3 }, Factor { p: 5, e: 2 }]),
    ];
    for (n, expected) in suite {
        let actual: Vec<_> = n.factors();
        assert_eq!(&actual, expected);
    }
}

#[test]
fn euclid_domain_big_integers() {
    let g = <BigInt as EuclidDomain>::gcd(BigInt::from(15), BigInt::from(303));
    assert_eq!(g, BigInt::from(3));
    let l = <BigInt as EuclidDomain>::lcm(BigInt::from(4), BigInt::from(6));
    assert_eq!(l, BigInt::from(12));
    let mut x = BigInt::from(1);
    let mut y = BigInt::from(0);
    let g = <BigInt as EuclidDomain>::xgcd(BigInt::from(35), BigInt::from(15), &mut x, &mut y);
    assert_eq!(g, BigInt::from(5));
    assert_eq!(BigInt::from(35) * x + BigInt::from(15) * y, BigInt::from(5));
}

#[test]
fn carmichael_small_values() {
    let cases: &[(u32, u32)] = &[
        (1, 1),
        (2, 1),
        (3, 2),
        (4, 2),
        (5, 4),
        (8, 2),
        (12, 2),
        (15, 4),
        (16, 4),
        (21, 6),
        (100, 20),
    ];
    for (n, expected) in cases {
        assert_eq!(n.carmichael_lambda(), *expected);
    }
}
