use algebra::zmod::{IntegerMod, IntegerModRing};
use algebra::AlgebraError;
use num::BigInt;

fn ring(m: i64) -> IntegerModRing {
    IntegerModRing::new(BigInt::from(m))
}

#[test]
fn elem_reduces_into_range() {
    let r = ring(7);
    assert_eq!(r.elem(BigInt::from(10)).value(), BigInt::from(3));
    assert_eq!(r.elem(BigInt::from(-1)).value(), BigInt::from(6));
    assert_eq!(r.elem(BigInt::from(-14)).value(), BigInt::from(0));
    assert_eq!(r.elem(BigInt::from(0)).value(), BigInt::from(0));
}

#[test]
fn ring_laws_over_big_integers() {
    let r = ring(97);
    for (a, b) in [(1234i64, 5678i64), (96, 96), (0, 41)] {
        let sum = r.elem(BigInt::from(a)).add(&r.elem(BigInt::from(b)));
        assert_eq!(sum.value(), r.elem(BigInt::from(a + b)).value());
        let diff = r.elem(BigInt::from(a)).sub(&r.elem(BigInt::from(b)));
        assert_eq!(diff.value(), r.elem(BigInt::from(a - b)).value());
        let prod = r.elem(BigInt::from(a)).mul(&r.elem(BigInt::from(b)));
        assert_eq!(prod.value(), r.elem(BigInt::from(a * b)).value());
    }
}

#[test]
fn division_round_trip() {
    // Dividing one by a and multiplying back by a returns one.
    let m = 1_000_000_007i64;
    let r = ring(m);
    for a in [1i64, 2, 3, 1000, 999_999_999, 123_456_789] {
        let one = r.elem(BigInt::from(1));
        let divisor = r.elem(BigInt::from(a));
        let quotient = one.div(&divisor);
        let back = quotient.mul(&divisor);
        assert_eq!(back.value(), BigInt::from(1));
    }
}

#[test]
fn division_then_multiplication_recovers_dividend() {
    let r = ring(97);
    for (a, b) in [(15i64, 4i64), (0, 9), (96, 96), (1, 96)] {
        let dividend = r.elem(BigInt::from(a));
        let divisor = r.elem(BigInt::from(b));
        let back = dividend.div(&divisor).mul(&divisor);
        assert_eq!(back.value(), dividend.value());
    }
}

#[test]
fn negation() {
    let r = ring(11);
    assert_eq!(r.elem(BigInt::from(4)).neg().value(), BigInt::from(7));
    assert_eq!(r.elem(BigInt::from(0)).neg().value(), BigInt::from(0));
}

#[test]
fn scalar_operations() {
    let r = ring(7);
    let three = r.elem(BigInt::from(3));
    assert_eq!(three.scalar_mul(5).value(), BigInt::from(1));
    // 3^4 == 81 == 4 (mod 7)
    assert_eq!(three.scalar_pow(4).value(), BigInt::from(4));
    assert_eq!(three.scalar_pow(0).value(), BigInt::from(1));
}

#[test]
fn ring_descriptors() {
    let r = IntegerModRing::new(BigInt::from(-12));
    assert_eq!(r.order(), BigInt::from(12));
    assert_eq!(r.characteristic(), BigInt::from(12));
    assert_eq!(r.krull_dimension(), BigInt::from(0));
    assert!(r.is_noetherian());
    assert_eq!(r.is_prime_field(), Err(AlgebraError::Unimplemented));
    assert!(r.multiplicative_generator().is_err());
    assert!(IntegerModRing::category().is_err());
}

#[test]
fn multiplicative_group_of_ten() {
    let r = ring(10);
    let group = r.list_of_elements_of_multiplicative_group();
    let expected: Vec<BigInt> = [1i64, 3, 7, 9].iter().map(|&v| BigInt::from(v)).collect();
    assert_eq!(group, expected);
}
