use ark_bls12_381::Fr;
use ark_ff::{BigInt, FftField, PrimeField};
use ark_poly::{EvaluationDomain, GeneralEvaluationDomain};
use plonk_core::field::{FieldElement, MODULUS_L0, MODULUS_L1, MODULUS_L2, MODULUS_L3};
use plonk_core::polynomial::MAX_DOMAIN_SIZE;
use plonk_core::polynomial::{
    domain_elements, domain_size, interpolate, next_power_of_two, EncodingError, Polynomial,
};

fn to_fr(e: &FieldElement) -> Fr {
    let (l0, l1, l2, l3) = e.limbs();
    Fr::from_bigint(BigInt::new([l0, l1, l2, l3])).unwrap()
}

fn minus_one() -> FieldElement {
    FieldElement::from_limbs(MODULUS_L0 - 1, MODULUS_L1, MODULUS_L2, MODULUS_L3).unwrap()
}

#[test]
fn test_modulus_is_that_of_the_field() {
    let limbs = Fr::MODULUS.0;
    assert_eq!(limbs, [MODULUS_L0, MODULUS_L1, MODULUS_L2, MODULUS_L3]);
    assert!(FieldElement::from_limbs(MODULUS_L0, MODULUS_L1, MODULUS_L2, MODULUS_L3).is_none());
    assert!(FieldElement::from_limbs(0, 0, 0, MODULUS_L3 + 1).is_none());
    assert!(FieldElement::from_limbs(u64::MAX, u64::MAX, u64::MAX, MODULUS_L3 - 1).is_some());
    assert_eq!(to_fr(&minus_one()), -Fr::from(1u64));
}

#[test]
fn test_field_arithmetic_wraps_at_the_modulus() {
    let one = FieldElement::one();
    let two = FieldElement::from_u64(2);
    assert_eq!(FieldElement::from_u64(3).add(&FieldElement::from_u64(4)), FieldElement::from_u64(7));
    assert_eq!(FieldElement::from_u64(3).mul(&FieldElement::from_u64(4)), FieldElement::from_u64(12));
    assert_eq!(FieldElement::from_u64(3).sub(&FieldElement::from_u64(4)), minus_one());
    assert_eq!(minus_one().add(&one), FieldElement::zero());
    assert_eq!(minus_one().add(&two), one);
    assert_eq!(minus_one().mul(&minus_one()), one);
    assert_eq!(FieldElement::zero().sub(&one), minus_one());
    let big = FieldElement::from_u64(u64::MAX);
    assert_eq!(
        big.mul(&big).limbs(),
        (1, u64::MAX - 1, 0, 0)
    );
    assert_eq!(big.add(&one).limbs(), (0, 1, 0, 0));
    assert!(FieldElement::zero().is_zero());
    assert!(!one.is_zero());
    assert_eq!(one.limbs(), (1, 0, 0, 0));
}

#[test]
fn test_next_power_of_two() {
    assert_eq!(next_power_of_two(0), Some(1));
    assert_eq!(next_power_of_two(1), Some(1));
    assert_eq!(next_power_of_two(12), Some(16));
    assert_eq!(next_power_of_two(16), Some(16));
    assert_eq!(next_power_of_two(17), Some(32));
    assert_eq!(next_power_of_two(usize::MAX), None);
    assert_eq!(next_power_of_two(usize::MAX / 2 + 2), None);
    assert_eq!(
        next_power_of_two(usize::MAX / 2 + 1),
        Some(usize::MAX / 2 + 1)
    );
}

#[test]
fn test_domain_size_errors() {
    assert_eq!(domain_size(12), Ok(16));
    assert_eq!(domain_size(1 << 32), Ok(1 << 32));
    assert_eq!(domain_size((1 << 32) + 1), Err(EncodingError::NoDomain));
    assert_eq!(domain_size(usize::MAX), Err(EncodingError::CircuitTooLarge));
    assert_eq!(
        EncodingError::NoDomain.message(),
        "Domain cannot be constructed from circuit size"
    );
    assert_eq!(
        EncodingError::CircuitTooLarge.message(),
        "Circuit size is too large."
    );
    assert_eq!(
        domain_elements(usize::MAX).unwrap_err(),
        EncodingError::CircuitTooLarge
    );
}

#[test]
fn test_domain_elements_are_powers_of_a_root_of_unity() {
    let points = domain_elements(5).unwrap();
    assert_eq!(points.len(), 8);
    assert_eq!(points[0], FieldElement::one());
    let generator = points[1];
    for j in 1..8 {
        assert_eq!(points[j], points[j - 1].mul(&generator));
        assert_ne!(points[j], FieldElement::one());
    }
    assert_eq!(points[7].mul(&generator), FieldElement::one());
    assert_eq!(points[4], minus_one());
}

#[test]
fn test_polynomial_evaluation_and_subtraction() {
    // 2 + 3 x + x^2, given with zeros at the high end
    let p = Polynomial::from_coefficients_vec(vec![
        FieldElement::from_u64(2),
        FieldElement::from_u64(3),
        FieldElement::from_u64(1),
        FieldElement::zero(),
        FieldElement::zero(),
    ]);
    assert_eq!(p.coeffs().len(), 3);
    assert_eq!(p.evaluate(&FieldElement::from_u64(5)), FieldElement::from_u64(42));
    assert_eq!(p.evaluate(&FieldElement::zero()), FieldElement::from_u64(2));
    let zero = Polynomial::from_coefficients_vec(vec![FieldElement::zero()]);
    assert_eq!(zero.coeffs().len(), 0);
    assert_eq!(zero.evaluate(&FieldElement::from_u64(9)), FieldElement::zero());

    // (2 + 3 x + x^2) - (1 + 3 x + x^2) = 1
    let q = Polynomial::from_coefficients_vec(vec![
        FieldElement::from_u64(1),
        FieldElement::from_u64(3),
        FieldElement::from_u64(1),
    ]);
    assert_eq!(*p.sub(&q).coeffs(), vec![FieldElement::one()]);
    assert_eq!(p.sub(&p).coeffs().len(), 0);
    // 1 - (2 + 3 x + x^2) = -1 - 3 x - x^2
    let one = Polynomial::from_coefficients_vec(vec![FieldElement::one()]);
    let d = one.sub(&p);
    assert_eq!(d.coeffs().len(), 3);
    assert_eq!(d.coeffs()[0], minus_one());
    assert_eq!(d.evaluate(&FieldElement::from_u64(5)), FieldElement::one().sub(&FieldElement::from_u64(42)));
}

#[test]
fn test_interpolate_takes_the_evaluations_on_the_domain() {
    let evals: Vec<FieldElement> = (1..=5).map(FieldElement::from_u64).collect();
    let poly = interpolate(6, &evals).unwrap();
    let points = domain_elements(6).unwrap();
    assert_eq!(points.len(), 8);
    for j in 0..8 {
        let expected = if j < 5 { evals[j] } else { FieldElement::zero() };
        assert_eq!(poly.evaluate(&points[j]), expected);
    }
    // a constant on the whole domain is a constant polynomial
    let ones = vec![FieldElement::from_u64(9); 4];
    let constant = interpolate(4, &ones).unwrap();
    assert_eq!(*constant.coeffs(), vec![FieldElement::from_u64(9)]);
    assert_eq!(
        interpolate((1 << 32) + 1, &evals).unwrap_err(),
        EncodingError::NoDomain
    );
}

#[test]
fn test_largest_domain_is_that_of_the_field() {
    assert_eq!(1u64 << <Fr as FftField>::TWO_ADICITY, MAX_DOMAIN_SIZE);
    let largest = GeneralEvaluationDomain::<Fr>::new(MAX_DOMAIN_SIZE as usize).unwrap();
    assert!(matches!(largest, GeneralEvaluationDomain::Radix2(_)));
    assert_eq!(largest.size() as u64, MAX_DOMAIN_SIZE);
    let small = GeneralEvaluationDomain::<Fr>::new(8).unwrap();
    assert!(matches!(small, GeneralEvaluationDomain::Radix2(_)));
    assert_eq!(small.size(), 8);
    assert_eq!(to_fr(&domain_elements(8).unwrap()[1]), small.group_gen());
    for (mine, theirs) in domain_elements(8).unwrap().iter().zip(small.elements()) {
        assert_eq!(to_fr(mine), theirs);
    }
}
