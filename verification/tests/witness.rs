use plonk_core::circuit::{Cellref, CircuitBuilder, InputConfig};
use plonk_core::error::WitnessError;
use plonk_core::field::FieldElement;
use plonk_core::witness::compute_witness;

fn elements(values: &[u64]) -> Vec<FieldElement> {
    values.iter().map(|v| FieldElement::from_u64(*v)).collect()
}

#[test]
fn test_worked_example() {
    let mut builder = CircuitBuilder::new(InputConfig::new(2, 1));
    let (pb_refs, prv_refs) = builder.get_input_refs();
    let out_0 = builder.add_addition(pb_refs[0], prv_refs[0]).unwrap();
    let out_1 = builder.add_multiplication(out_0, pb_refs[1]).unwrap();
    let _ = builder.add_addition(out_1, prv_refs[0]).unwrap();
    let circ = builder.build().unwrap();
    let witness = compute_witness(&circ, &elements(&[3, 5]), &elements(&[7])).unwrap();
    assert_eq!(witness, elements(&[3, 7, 10, 10, 5, 50, 50, 7, 57, 7, 5, 3]));
}

#[test]
fn test_unused_gate_output_is_still_computed() {
    // row 0 is never used by a later row, and is not the output either
    let mut builder = CircuitBuilder::new(InputConfig::new(1, 1));
    let _ = builder.add_addition(Cellref::Input(1), Cellref::Input(2)).unwrap();
    let _ = builder.add_multiplication(Cellref::Input(1), Cellref::Input(2)).unwrap();
    let circ = builder.build().unwrap();
    assert_eq!(circ.output_id(), 5);
    assert_eq!(circ.get_copy_constraints(2), None);
    let witness = compute_witness(&circ, &elements(&[3]), &elements(&[4])).unwrap();
    assert_eq!(witness, elements(&[3, 4, 7, 3, 4, 12, 4, 3]));
}

#[test]
fn test_operand_may_repeat_an_operand_cell() {
    // the second row reads the left operand cell of the first
    let mut builder = CircuitBuilder::new(InputConfig::new(2, 0));
    let out_0 = builder.add_multiplication(Cellref::Input(1), Cellref::Input(2)).unwrap();
    let _ = builder.add_addition(out_0, Cellref::Wire(0)).unwrap();
    let circ = builder.build().unwrap();
    assert_eq!(
        *circ.copy_constraints(),
        vec![vec![0, 4, 7], vec![1, 6], vec![2, 3]]
    );
    let witness = compute_witness(&circ, &elements(&[6, 7]), &vec![]).unwrap();
    assert_eq!(witness, elements(&[6, 7, 42, 42, 6, 48, 7, 6]));
}

#[test]
fn test_incomplete_trace_error() {
    // the wire constraint writes the output of row 0 before the row is
    // ready; the row is never computed and nothing flows on from its output
    let mut b = CircuitBuilder::new(InputConfig::new(2, 0));
    let out_0 = b.add_addition(Cellref::Input(1), Cellref::Input(2)).unwrap();
    let _ = b.add_addition(out_0, Cellref::Input(2)).unwrap();
    b.add_wire_constraint(Cellref::Input(1), Cellref::Wire(2));
    let circ = b.build().unwrap();
    assert_eq!(
        *circ.copy_constraints(),
        vec![vec![0, 2, 7], vec![1, 4, 6], vec![2, 3]]
    );
    let result = compute_witness(&circ, &elements(&[1, 2]), &vec![]);
    assert_eq!(result, Err(WitnessError::IncompleteTrace));
    assert_eq!(
        WitnessError::IncompleteTrace.message(),
        "Not all the cells are filled"
    );
}

#[test]
fn test_witness_is_the_same_every_time() {
    let build = || {
        let mut b = CircuitBuilder::new(InputConfig::new(1, 2));
        let x = b.add_multiplication(Cellref::Input(2), Cellref::Input(3)).unwrap();
        let y = b.add_addition(x, Cellref::Input(1)).unwrap();
        let _ = b.add_multiplication(y, x).unwrap();
        b.build().unwrap()
    };
    let first = build();
    let second = build();
    assert_eq!(first.selectors(), second.selectors());
    assert_eq!(first.copy_constraints(), second.copy_constraints());
    let w1 = compute_witness(&first, &elements(&[10]), &elements(&[2, 3])).unwrap();
    let w2 = compute_witness(&second, &elements(&[10]), &elements(&[2, 3])).unwrap();
    assert_eq!(w1, w2);
    // (2 * 3 + 10) * (2 * 3) = 96
    assert_eq!(w1[8], FieldElement::from_u64(96));
}
