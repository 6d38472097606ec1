use plonk_core::circuit::{Cellref, CircuitBuilder, InputConfig, Op};
use plonk_core::error::{decimal_string, CircuitError, RefError};

// Test simple circuit to calculate
// out = (pub_0 + priv_0) * pub_1 + priv_0
//
// Table defined as
//
// Input Cells
// | pub_0 | pub_1 | priv_0 |
//
// Wire Cells
// | lhs   | rhs    | out   | s |
// |-------|--------|-------|---|
// | pub_0 | priv_0 | out_0 | 0 |
// | out_0 | pub_1  | out_1 | 1 |
// | out_1 | priv_0 | out   | 0 |
// Inputs
// pub: 2, priv: 1
#[test]
fn test_build_circuit() {
    let mut builder = CircuitBuilder::new(InputConfig::new(2, 1));

    let (pb_refs, prv_refs) = builder.get_input_refs();

    // First row of addition
    // out_0 = (pub_0 + priv_0)
    let out_0 = builder.add_addition(pb_refs[0], prv_refs[0]).unwrap();

    // Second row of multiplication
    // out_1 = out_0 * pub_1
    let out_1 = builder.add_multiplication(out_0, pb_refs[1]).unwrap();

    // Last addition
    // out = out_1 + priv_0
    let _ = builder.add_addition(out_1, prv_refs[0]).unwrap();

    let builder_result = builder.build();
    assert!(builder_result.is_ok(), "Build should succeed.");

    let circ = builder_result.unwrap();
    assert!(
        circ.selectors().eq(&vec![Op::Add, Op::Mul, Op::Add]),
        "Selector cells should be defined correctly."
    );

    // Test wiring constraints
    // Wirings: [[0, 11],[4,10],[1,7,9],[2,3],[5,6]]
    assert!(
        circ.copy_constraints().eq(&vec![
            vec![0, 11],
            vec![4, 10],
            vec![1, 7, 9],
            vec![2, 3],
            vec![5, 6],
        ]),
        "Circuit wirings should be defined correctly."
    );
}

#[test]
fn test_lhs_invalid_input_ref() {
    let mut builder = CircuitBuilder::new(InputConfig::new(1, 0));

    let res = builder.add_addition(Cellref::Input(100), Cellref::Input(1));
    let error = res.unwrap_err();
    assert_eq!(error.message(), "LHS: Input 100 does not exist.");
}

#[test]
fn test_rhs_invalid_input_ref() {
    let mut builder = CircuitBuilder::new(InputConfig::new(1, 0));

    let res = builder.add_addition(Cellref::Input(1), Cellref::Input(100));
    let error = res.unwrap_err();
    assert_eq!(error.message(), "RHS: Input 100 does not exist.");
}

#[test]
fn test_lhs_invalid_wire_ref() {
    let mut builder = CircuitBuilder::new(InputConfig::new(1, 0));

    let res = builder.add_addition(Cellref::Wire(1), Cellref::Input(1));
    let error = res.unwrap_err();
    assert_eq!(error.message(), "LHS: Wire 1 does not exist.");
}

#[test]
fn test_rhs_invalid_wire_ref() {
    let mut builder = CircuitBuilder::new(InputConfig::new(1, 0));

    let res = builder.add_addition(Cellref::Input(1), Cellref::Wire(1));
    let error = res.unwrap_err();
    assert_eq!(error.message(), "RHS: Wire 1 does not exist.");
}

fn simple_builder() -> CircuitBuilder {
    let mut builder = CircuitBuilder::new(InputConfig::new(2, 1));
    let (pb_refs, prv_refs) = builder.get_input_refs();
    let out_0 = builder.add_addition(pb_refs[0], prv_refs[0]).unwrap();
    let out_1 = builder.add_multiplication(out_0, pb_refs[1]).unwrap();
    let _ = builder.add_addition(out_1, prv_refs[0]).unwrap();
    builder
}

#[test]
fn test_input_config() {
    let config = InputConfig::new(2, 3);
    assert_eq!(config.n_pub(), 2);
    assert_eq!(config.n_priv(), 3);
    assert_eq!(config.total_input(), 5);
    let empty = InputConfig::new(0, 0);
    assert_eq!(empty.total_input(), 0);
}

#[test]
fn test_input_refs_are_one_per_input() {
    let builder = CircuitBuilder::new(InputConfig::new(2, 3));
    let (public, private) = builder.get_input_refs();
    assert_eq!(public, vec![Cellref::Input(1), Cellref::Input(2)]);
    assert_eq!(
        private,
        vec![Cellref::Input(3), Cellref::Input(4), Cellref::Input(5)]
    );
    let (public, private) = CircuitBuilder::new(InputConfig::new(0, 0)).get_input_refs();
    assert!(public.is_empty());
    assert!(private.is_empty());
}

#[test]
fn test_gate_results_and_validation() {
    let mut builder = CircuitBuilder::new(InputConfig::new(1, 1));
    assert_eq!(builder.validate_cell_ref(Cellref::Input(0)), Err(RefError::Input(0)));
    assert_eq!(builder.validate_cell_ref(Cellref::Input(1)), Ok(()));
    assert_eq!(builder.validate_cell_ref(Cellref::Input(2)), Ok(()));
    assert_eq!(builder.validate_cell_ref(Cellref::Input(3)), Err(RefError::Input(3)));
    assert_eq!(builder.validate_cell_ref(Cellref::Wire(0)), Err(RefError::Wire(0)));
    assert_eq!(
        builder.add_addition(Cellref::Input(1), Cellref::Input(2)),
        Ok(Cellref::Wire(2))
    );
    assert_eq!(builder.validate_cell_ref(Cellref::Wire(2)), Ok(()));
    assert_eq!(builder.validate_cell_ref(Cellref::Wire(3)), Err(RefError::Wire(3)));
    assert_eq!(
        builder.add_multiplication(Cellref::Wire(2), Cellref::Wire(0)),
        Ok(Cellref::Wire(5))
    );
    // both operands invalid: the left one is reported
    assert_eq!(
        builder.add_multiplication(Cellref::Input(0), Cellref::Wire(6)),
        Err(CircuitError::Lhs(RefError::Input(0)))
    );
    assert_eq!(
        builder.add_multiplication(Cellref::Wire(5), Cellref::Wire(6)),
        Err(CircuitError::Rhs(RefError::Wire(6)))
    );
    // a refused gate leaves no trace
    let circ = builder.build().unwrap();
    assert_eq!(circ.n_rows(), 2);
    assert_eq!(*circ.selectors(), vec![Op::Add, Op::Mul]);
    assert_eq!(
        *circ.copy_constraints(),
        vec![vec![0, 4, 7], vec![1, 6], vec![2, 3]]
    );
}

#[test]
fn test_circuit_accessors() {
    let circ = simple_builder().build().unwrap();
    assert_eq!(circ.n_inputs(), 3);
    assert_eq!(circ.n_rows(), 3);
    assert_eq!(circ.n_cells(), 12);
    assert_eq!(circ.output_id(), 8);
    assert_eq!(circ.input_config().n_pub(), 2);
    assert_eq!(circ.input_config().n_priv(), 1);
    assert_eq!(circ.get_selector(0), Some(Op::Add));
    assert_eq!(circ.get_selector(1), Some(Op::Mul));
    assert_eq!(circ.get_selector(2), Some(Op::Add));
    assert_eq!(circ.get_selector(3), None);
    assert_eq!(circ.get_copy_constraints(9), Some(&[1usize, 7, 9][..]));
    assert_eq!(circ.get_copy_constraints(7), Some(&[1usize, 7, 9][..]));
    assert_eq!(circ.get_copy_constraints(2), Some(&[2usize, 3][..]));
    assert_eq!(circ.get_copy_constraints(8), None);
    assert_eq!(circ.get_copy_constraints(12), None);
    let copy = circ.clone();
    assert_eq!(copy.selectors(), circ.selectors());
    assert_eq!(copy.copy_constraints(), circ.copy_constraints());
    assert_eq!(copy.n_cells(), 12);
    assert_eq!(copy.output_id(), 8);
}

#[test]
fn test_build_is_the_same_every_time() {
    let first = simple_builder().build().unwrap();
    let second = simple_builder().build().unwrap();
    assert_eq!(first.selectors(), second.selectors());
    assert_eq!(first.copy_constraints(), second.copy_constraints());
    assert_eq!(first.output_id(), second.output_id());
}

#[test]
fn test_build_without_rows_fails() {
    let builder = CircuitBuilder::new(InputConfig::new(2, 1));
    let error = builder.build().err().unwrap();
    assert_eq!(error, CircuitError::NoRows);
    assert_eq!(error.message(), "Circuit has no gate.");
}

#[test]
fn test_build_rejects_unresolved_constraints() {
    let mut builder = simple_builder();
    builder.add_wire_constraint(Cellref::Wire(8), Cellref::Input(4));
    let error = builder.build().err().unwrap();
    assert_eq!(error, CircuitError::Constraint(RefError::Input(4)));
    assert_eq!(error.message(), "Input 4 does not exist.");

    let mut builder = simple_builder();
    builder.add_wire_constraint(Cellref::Wire(9), Cellref::Input(0));
    let error = builder.build().err().unwrap();
    assert_eq!(error, CircuitError::Constraint(RefError::Wire(9)));
    assert_eq!(error.message(), "Wire 9 does not exist.");
}

#[test]
fn test_wire_constraints_are_merged_in_order() {
    // a constraint may name a row that is declared after it
    let mut builder = CircuitBuilder::new(InputConfig::new(1, 0));
    builder.add_wire_constraint(Cellref::Wire(2), Cellref::Wire(5));
    let out_0 = builder.add_addition(Cellref::Input(1), Cellref::Input(1)).unwrap();
    let _ = builder.add_addition(out_0, Cellref::Input(1)).unwrap();
    builder.add_wire_constraint(Cellref::Wire(5), Cellref::Wire(5));
    builder.add_wire_constraint(Cellref::Wire(4), Cellref::Wire(2));
    let circ = builder.build().unwrap();
    // cells: 0..5 wires, 6 the input; the first pair finds no group and
    // starts {2, 5}; cell 3 joins it through cell 2; the last pair finds
    // cell 4 in the group of the input and adds cell 2 there as well
    assert_eq!(
        *circ.copy_constraints(),
        vec![vec![0, 1, 2, 4, 6], vec![2, 3, 5]]
    );
    assert_eq!(circ.get_copy_constraints(2), Some(&[0usize, 1, 2, 4, 6][..]));
}

#[test]
fn test_decimal_string() {
    assert_eq!(decimal_string(0), "0");
    assert_eq!(decimal_string(7), "7");
    assert_eq!(decimal_string(10), "10");
    assert_eq!(decimal_string(1234567890), "1234567890");
    assert_eq!(decimal_string(usize::MAX), usize::MAX.to_string());
}
