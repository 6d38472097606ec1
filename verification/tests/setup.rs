use plonk_core::circuit::{Circuit, CircuitBuilder, InputConfig};
use plonk_core::field::FieldElement;
use plonk_core::polynomial::{
    compute_public_input_polynomial, compute_selector_polynomial, domain_elements,
};
use plonk_core::setup::{setup, SetupError};

// build circuit to calculate
// out = (pub_0 + priv_0) * pub_1 + priv_0
fn simple_circ() -> Circuit {
    let mut builder = CircuitBuilder::new(InputConfig::new(2, 1));
    let (pb_refs, prv_refs) = builder.get_input_refs();
    let out_0 = builder.add_addition(pb_refs[0], prv_refs[0]).unwrap();
    let out_1 = builder.add_multiplication(out_0, pb_refs[1]).unwrap();
    let _ = builder.add_addition(out_1, prv_refs[0]).unwrap();

    builder.build().unwrap()
}

#[test]
fn test_compute_public_input_polynomial() {
    // Public input polynomial should be defined over the same domain with trace polynomial.
    // evaluation point in public input is
    // w^-i where i in {1,..,n_pub}
    // w is n-th root of unity where n is total number of cells in a circuit.

    let circ = simple_circ();
    let public_input = vec![FieldElement::from_u64(3), FieldElement::from_u64(5)];

    let n_cells = circ.n_cells();
    let n_pub = circ.input_config().n_pub();
    let points = domain_elements(n_cells).unwrap();

    let poly = compute_public_input_polynomial(&circ, &public_input).unwrap();
    let pad = vec![FieldElement::from_u64(0); n_cells - n_pub];

    for (v, d) in pad
        .iter()
        .chain(public_input.iter().rev())
        .zip(points.iter())
    {
        let val = poly.evaluate(d);
        assert_eq!(*v, val);
    }
}

#[test]
fn test_compute_selector_polynomial() {
    let circ = simple_circ();

    let poly = compute_selector_polynomial(&circ).unwrap();
    let points = domain_elements(circ.n_cells()).unwrap();

    let expected = [1, 0, 1]
        .iter()
        .map(|i| FieldElement::from_u64(*i))
        .collect::<Vec<_>>();

    for (d, v) in points.iter().step_by(3).zip(expected) {
        let val = poly.evaluate(d);
        assert_eq!(v, val);
    }
}

#[test]
fn test_selector_polynomial_is_zero_off_the_rows() {
    let circ = simple_circ();
    let poly = compute_selector_polynomial(&circ).unwrap();
    let points = domain_elements(circ.n_cells()).unwrap();
    assert_eq!(points.len(), 16);
    for (j, d) in points.iter().enumerate() {
        let expected = if j == 0 || j == 6 { 1 } else { 0 };
        assert_eq!(poly.evaluate(d), FieldElement::from_u64(expected));
    }
}

#[test]
fn test_setup_checks_the_degree() {
    let circ = simple_circ();
    let public_input = vec![FieldElement::from_u64(3), FieldElement::from_u64(5)];
    assert!(matches!(setup(&circ, &public_input, 15), Err(SetupError::DegreeTooLow)));
    let pp = setup(&circ, &public_input, 16).unwrap();
    assert_eq!(pp.max_degree(), 16);
    assert_eq!(
        *pp.selector_polynomial(),
        compute_selector_polynomial(&circ).unwrap()
    );
    assert_eq!(
        *pp.public_input_polynomial(),
        compute_public_input_polynomial(&circ, &public_input).unwrap()
    );
}

#[test]
fn test_public_input_polynomial_is_zero_off_the_inputs() {
    let circ = simple_circ();
    let public_input = vec![FieldElement::from_u64(3), FieldElement::from_u64(5)];
    let poly = compute_public_input_polynomial(&circ, &public_input).unwrap();
    let points = domain_elements(circ.n_cells()).unwrap();
    assert_eq!(points.len(), 16);
    for (j, d) in points.iter().enumerate() {
        let expected = match j {
            11 => 3,
            10 => 5,
            _ => 0,
        };
        assert_eq!(poly.evaluate(d), FieldElement::from_u64(expected));
    }
    // no public input: the zero polynomial
    let none = compute_public_input_polynomial(&circ, &vec![]).unwrap();
    assert!(none.coeffs().is_empty());
}
