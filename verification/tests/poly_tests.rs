use algebra::algebraic::{ScalarMul, ScalarPow};
use algebra::unipoly::FormalPowerSeries;
use algebra::AlgebraError;

#[test]
fn expansion_scenario() {
    // (x^3 + 3)^2 + 5x^3 + 3x == x^6 + 11x^3 + 3x + 9.
    let binomial = FormalPowerSeries::term(1, 3).add(&FormalPowerSeries::term(3, 0));
    let squared = binomial.pow(2);
    let f = FormalPowerSeries::term(5, 3)
        .add(&squared)
        .add(&FormalPowerSeries::term(3, 1));
    assert_eq!(f.coeff(), vec![9, 3, 0, 11, 0, 0, 1]);
    assert_eq!(f.to_display_string(), "x^6 + 11x^3 + 3x + 9");
}

#[test]
fn display_special_cases() {
    assert_eq!(FormalPowerSeries::from_coeff(vec![0]).to_display_string(), "");
    assert_eq!(FormalPowerSeries::integer(5).to_display_string(), "5");
    assert_eq!(FormalPowerSeries::integer(1).to_display_string(), "1");
    assert_eq!(FormalPowerSeries::x().to_display_string(), "x");
    assert_eq!(
        FormalPowerSeries::from_coeff(vec![-2, 1, 0, 1]).to_display_string(),
        "x^3 + x + -2"
    );
    assert_eq!(
        FormalPowerSeries::from_coeff(vec![0, 7]).to_display_string(),
        "7x"
    );
    assert_eq!(
        FormalPowerSeries::from_coeff(vec![-1234567890123, 0, 1]).to_display_string(),
        "x^2 + -1234567890123"
    );
    assert_eq!(
        FormalPowerSeries::from_coeff(vec![i64::MIN, 1]).to_display_string(),
        "x + -9223372036854775808"
    );
}

#[test]
fn add_sub_inverse() {
    let p = FormalPowerSeries::from_coeff(vec![1, -2, 3]);
    let q = FormalPowerSeries::from_coeff(vec![4, 5, 0, 7]);
    let back = p.add(&q).sub(&q);
    assert_eq!(back.coeff(), p.coeff());
    // Also when the sum cancels the leading term.
    let r = FormalPowerSeries::from_coeff(vec![0, 0, -3]);
    let s = FormalPowerSeries::from_coeff(vec![1, 0, 3]);
    let back = r.add(&s).sub(&s);
    assert_eq!(back.coeff(), r.coeff());
}

#[test]
fn multiplication_degree_law() {
    let p = FormalPowerSeries::from_coeff(vec![1, 2, 3]);
    let q = FormalPowerSeries::from_coeff(vec![-4, 5]);
    let prod = p.mul(&q);
    assert_eq!(prod.degree(), p.degree() + q.degree());
    // An exact product: (1 + x) * (1 - x) == 1 - x^2.
    let a = FormalPowerSeries::from_coeff(vec![1, 1]);
    let b = FormalPowerSeries::from_coeff(vec![1, -1]);
    assert_eq!(a.mul(&b).coeff(), vec![1, 0, -1]);
}

#[test]
fn division_remainder_identity() {
    // d = x^2 + 1 (monic), p = x^4 + 3x^3 + 2x + 5.
    let d = FormalPowerSeries::from_coeff(vec![1, 0, 1]);
    let p = FormalPowerSeries::from_coeff(vec![5, 2, 0, 3, 1]);
    let q = p.div(&d).unwrap();
    let r = p.rem(&d).unwrap();
    assert!(r.degree() < d.degree() || r.coeff() == vec![0]);
    let back = q.mul(&d).add(&r);
    assert_eq!(back.coeff(), p.coeff());
    // A short dividend: quotient zero, remainder the dividend itself.
    let small = FormalPowerSeries::from_coeff(vec![7, 8]);
    assert_eq!(small.div(&d).unwrap().coeff(), vec![0]);
    assert_eq!(small.rem(&d).unwrap().coeff(), vec![7, 8]);
}

#[test]
fn non_monic_divisor_reported() {
    let d = FormalPowerSeries::from_coeff(vec![1, 2]);
    let p = FormalPowerSeries::from_coeff(vec![1, 0, 1]);
    assert_eq!(p.div(&d), Err(AlgebraError::DivisorNotMonic));
    assert_eq!(p.rem(&d), Err(AlgebraError::DivisorNotMonic));
}

#[test]
fn canonical_zero_polynomial() {
    assert_eq!(FormalPowerSeries::from_coeff(vec![]).coeff(), vec![0]);
    assert_eq!(FormalPowerSeries::from_coeff(vec![0]).coeff(), vec![0]);
    assert_eq!(
        FormalPowerSeries::from_coeff(vec![0, 0, 0, 0, 0]).coeff(),
        vec![0]
    );
    assert_eq!(FormalPowerSeries::term(0, 9).coeff(), vec![0]);
}

#[test]
fn trailing_zeros_trimmed() {
    let p = FormalPowerSeries::from_coeff(vec![1, 2, 0, 0]);
    assert_eq!(p.coeff(), vec![1, 2]);
    assert_eq!(p.degree(), 1);
    assert_eq!(p.leading_coefficient(), 2);
}

#[test]
fn unsupported_operations_reported() {
    let p = FormalPowerSeries::from_coeff(vec![1, 2, 3]);
    let q = FormalPowerSeries::x();
    assert_eq!(p.monic(), Err(AlgebraError::Unimplemented));
    assert_eq!(p.dubs(3), Err(AlgebraError::Unimplemented));
    assert_eq!(p.log(), Err(AlgebraError::Unimplemented));
    assert_eq!(p.pseudo_div(&q), Err(AlgebraError::Unimplemented));
    assert_eq!(p.pseudo_rem(&q), Err(AlgebraError::Unimplemented));
    assert_eq!(p.gcd(&q), Err(AlgebraError::Unimplemented));
    assert_eq!(p.integral(), Err(AlgebraError::Unimplemented));
}

#[test]
fn derivative() {
    // d/dx (5 + 2x + 7x^3) == 2 + 21x^2.
    let p = FormalPowerSeries::from_coeff(vec![5, 2, 0, 7]);
    assert_eq!(p.diff().coeff(), vec![2, 0, 21]);
    assert_eq!(FormalPowerSeries::integer(5).diff().coeff(), vec![0]);
}

#[test]
fn neg_and_scalar() {
    let p = FormalPowerSeries::from_coeff(vec![1, -2, 3]);
    assert_eq!(p.neg().coeff(), vec![-1, 2, -3]);
    assert_eq!(p.scalar_mul(3).coeff(), vec![3, -6, 9]);
    let x1 = FormalPowerSeries::from_coeff(vec![1, 1]);
    assert_eq!(x1.scalar_pow(3).coeff(), vec![1, 3, 3, 1]);
}

#[test]
fn pow_edge_cases() {
    let p = FormalPowerSeries::from_coeff(vec![2, 1]);
    assert_eq!(p.pow(0).coeff(), vec![1]);
    assert_eq!(p.pow(1).coeff(), vec![2, 1]);
    assert_eq!(p.pow(3).coeff(), vec![8, 12, 6, 1]);
}
