use ark_bls12_381::Fr;
use ark_ff::{BigInt, PrimeField};
use ark_poly::univariate::DensePolynomial;
use ark_poly::{DenseUVPolynomial, EvaluationDomain, GeneralEvaluationDomain, Polynomial as _};
use plonk_core::circuit::{Circuit, CircuitBuilder, InputConfig};
use plonk_core::field::FieldElement;
use plonk_core::polynomial::{domain_elements, Polynomial};
use plonk_core::prover::{Prover, ProverError};
use plonk_core::setup::setup;
use plonk_core::types::PublicParameters;

// build circuit to calculate
// out = (pub_0 + priv_0) * pub_1 + priv_0
fn simple_circ() -> Circuit {
    let mut builder = CircuitBuilder::new(InputConfig::new(2, 1));
    let (pb_refs, prv_refs) = builder.get_input_refs();
    let out_0 = builder.add_addition(pb_refs[0], prv_refs[0]).unwrap();
    let out_1 = builder.add_multiplication(out_0, pb_refs[1]).unwrap();
    let _ = builder.add_addition(out_1, prv_refs[0]).unwrap();

    builder.build().unwrap()
}

fn dummy_params(circ: &Circuit, public_inputs: &Vec<FieldElement>) -> PublicParameters {
    setup(circ, public_inputs, 16).unwrap()
}

fn to_fr(e: &FieldElement) -> Fr {
    let (l0, l1, l2, l3) = e.limbs();
    Fr::from_bigint(BigInt::new([l0, l1, l2, l3])).unwrap()
}

fn to_dense(p: &Polynomial) -> DensePolynomial<Fr> {
    DensePolynomial::from_coefficients_vec(p.coeffs().iter().map(to_fr).collect())
}

#[test]
fn test_generate_witness() {
    // Input Cells
    // | pub_0 | pub_1 | priv_0 |
    //
    // Wire Cells
    // | lhs   | rhs    | out   | s |
    // |-------|--------|-------|---|
    // | pub_0 | priv_0 | out_0 | 0 |
    // | out_0 | pub_1  | out_1 | 1 |
    // | out_1 | priv_0 | out   | 0 |
    //
    // Witness should assigned as following
    //
    // Input Cells
    // | 3 | 5 | 7 |
    //
    // Wire Cells
    // | lhs  | rhs  | out  | s |
    // |------|------|------|---|
    // |  3   |  7   |  10  | 0 |
    // | 10   |  5   |  50  | 1 |
    // | 50   |  7   |  57  | 0 |

    let circ = simple_circ();
    let public_inputs = vec![FieldElement::from_u64(3), FieldElement::from_u64(5)];
    let pp = dummy_params(&circ, &public_inputs);
    let private_inputs = vec![FieldElement::from_u64(7)];
    let mut prover = Prover::new(circ, pp, public_inputs, private_inputs);

    let result = prover.calculate_witness();
    let expected = [3, 7, 10, 10, 5, 50, 50, 7, 57, 7, 5, 3]
        .iter()
        .map(|i| FieldElement::from_u64(*i))
        .collect::<Vec<_>>();

    assert!(result.is_ok(), "Witness should be correctly calculated");
    assert!(
        prover.computation_trace().clone().unwrap().eq(&expected),
        "Witness should be calculated correctly."
    );
}

#[test]
fn test_trace_polynomial() {
    let circ = simple_circ();
    let size = circ.n_cells().checked_next_power_of_two().unwrap();
    let n_cells = circ.n_cells();
    let public_inputs = vec![FieldElement::from_u64(3), FieldElement::from_u64(5)];
    let pp = dummy_params(&circ, &public_inputs);
    let private_inputs = vec![FieldElement::from_u64(7)];
    let mut prover = Prover::new(circ, pp, public_inputs, private_inputs);

    let _ = prover.calculate_witness();
    let expected = [3, 7, 10, 10, 5, 50, 50, 7, 57, 7, 5, 3]
        .iter()
        .map(|i| FieldElement::from_u64(*i))
        .collect::<Vec<_>>();

    let result = prover.compute_trace_polynomial();
    assert!(
        result.is_ok(),
        "Trace polynomial should be correctly calculated."
    );

    let poly = result.unwrap();
    let points = domain_elements(n_cells).unwrap();
    assert_eq!(points.len(), size);
    for (w, e) in expected.iter().zip(points.iter().take(expected.len())) {
        let val = poly.evaluate(e);
        assert_eq!(*w, val);
    }

    // the same against the polynomial arithmetic of the field's own crate
    let dense = to_dense(&poly);
    let domain = GeneralEvaluationDomain::<Fr>::new(size).unwrap();
    for (w, e) in expected.iter().zip(domain.elements().take(expected.len())) {
        assert_eq!(to_fr(w), dense.evaluate(&e));
    }
    // beyond the cells the polynomial is worth zero on the domain
    for e in points.iter().skip(expected.len()) {
        assert_eq!(poly.evaluate(e), FieldElement::zero());
    }
}

#[test]
fn test_trace_polynomial_needs_witness() {
    let circ = simple_circ();
    let public_inputs = vec![FieldElement::from_u64(3), FieldElement::from_u64(5)];
    let pp = dummy_params(&circ, &public_inputs);
    let prover = Prover::new(circ, pp, public_inputs, vec![FieldElement::from_u64(7)]);
    let error = prover.compute_trace_polynomial().unwrap_err();
    assert_eq!(error, ProverError::TraceMissing);
    assert_eq!(error.message(), "Computation should be complete.");
}

#[test]
fn test_prove_builds_identity_polynomial() {
    let circ = simple_circ();
    let n_cells = circ.n_cells();
    let public_inputs = vec![FieldElement::from_u64(3), FieldElement::from_u64(5)];
    let pp = dummy_params(&circ, &public_inputs);
    let mut prover = Prover::new(circ, pp, public_inputs, vec![FieldElement::from_u64(7)]);
    let proof = prover.prove().unwrap();
    assert!(prover.computation_trace().is_some());
    let points = domain_elements(n_cells).unwrap();
    // T - V vanishes at the cells of the public inputs: addresses 11 and 10
    assert_eq!(proof.input_identity().evaluate(&points[11]), FieldElement::zero());
    assert_eq!(proof.input_identity().evaluate(&points[10]), FieldElement::zero());
    // and is worth the private input at its cell
    assert_eq!(proof.input_identity().evaluate(&points[9]), FieldElement::from_u64(7));
    assert_eq!(proof.trace_polynomial().evaluate(&points[8]), FieldElement::from_u64(57));
}
