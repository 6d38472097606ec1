use plonk_core::circuit::{Circuit, CircuitBuilder, InputConfig};
use plonk_core::field::FieldElement;
use plonk_core::polynomial::{compute_public_input_polynomial, trace_polynomial};
use plonk_core::prover::Prover;
use plonk_core::setup::setup;
use plonk_core::types::Proof;
use plonk_core::verification::Verifier;

// build circuit to calculate
// out = (pub_0 + priv_0) * pub_1 + priv_0
fn simple_circ() -> Circuit {
    let mut builder = CircuitBuilder::new(InputConfig::new(2, 1));
    let (pb_refs, prv_refs) = builder.get_input_refs();
    let out_0 = builder.add_addition(pb_refs[0], prv_refs[0]).unwrap();
    let out_1 = builder.add_multiplication(out_0, pb_refs[1]).unwrap();
    let _ = builder.add_addition(out_1, prv_refs[0]).unwrap();

    builder.build().unwrap()
}

fn elements(values: &[u64]) -> Vec<FieldElement> {
    values.iter().map(|v| FieldElement::from_u64(*v)).collect()
}

#[test]
fn test_prove_and_verify() {
    // Setup public parameters
    let circ = simple_circ();
    let public_inputs = elements(&[3, 5]);
    let degree = 16;

    // setup polynomials
    let pp = setup(&circ, &public_inputs, degree).unwrap();
    let proof;

    {
        let private_inputs = elements(&[7]);
        let mut prover = Prover::new(
            circ.clone(),
            pp.clone(),
            public_inputs.clone(),
            private_inputs,
        );
        let result = prover.calculate_witness();
        assert!(result.is_ok());
        // commit to the polynomials
        let result = prover.prove();
        assert!(result.is_ok(), "Proving should succeed");

        proof = result.unwrap();
    }

    {
        let mut verifier = Verifier::new(circ, pp, public_inputs);
        let result = verifier.verify(proof);
        assert!(result);
    }
}

fn proof_of(circ: &Circuit, public_inputs: &Vec<FieldElement>, trace: &[u64]) -> Proof {
    let t = trace_polynomial(&elements(trace)).unwrap();
    let v = compute_public_input_polynomial(circ, public_inputs).unwrap();
    let identity = t.sub(&v);
    Proof::new(t, identity)
}

#[test]
fn test_verify_accepts_the_witness_and_nothing_else() {
    let circ = simple_circ();
    let public_inputs = elements(&[3, 5]);
    let pp = setup(&circ, &public_inputs, 16).unwrap();
    let mut verifier = Verifier::new(circ.clone(), pp, public_inputs.clone());

    let witness = [3, 7, 10, 10, 5, 50, 50, 7, 57, 7, 5, 3];
    assert!(verifier.verify(proof_of(&circ, &public_inputs, &witness)));

    // another private input gives another witness of the same statement
    let other = [3, 1, 4, 4, 5, 20, 20, 1, 21, 1, 5, 3];
    assert!(verifier.verify(proof_of(&circ, &public_inputs, &other)));

    // a wrong gate output
    let bad_gate = [3, 7, 10, 10, 5, 50, 50, 7, 58, 7, 5, 3];
    assert!(!verifier.verify(proof_of(&circ, &public_inputs, &bad_gate)));

    // a broken copy constraint: cell 3 must repeat cell 2
    let bad_copy = [3, 7, 10, 11, 5, 55, 55, 7, 62, 7, 5, 3];
    assert!(!verifier.verify(proof_of(&circ, &public_inputs, &bad_copy)));

    // a public input that is not the verifier's
    let bad_input = [4, 7, 11, 11, 5, 55, 55, 7, 62, 7, 5, 4];
    assert!(!verifier.verify(proof_of(&circ, &public_inputs, &bad_input)));

    // a difference polynomial that is not T - V
    let t = trace_polynomial(&elements(&witness)).unwrap();
    assert!(!verifier.verify(Proof::new(t.clone(), t)));
}
