use plonkish::column::{Cell, Column, ColumnKind};
use plonkish::fibonacci::columns;
use plonkish::fibonacci::rotations::{FibonacciChip, MyCircuit};
use plonkish::field::FieldElement;
use plonkish::layout::SynthesisError;
use plonkish::layouter::Layouter;
use plonkish::prover::{Circuit, MockProver};
use plonkish::system::{ConfigurationError, ConstraintSystem};
use plonkish::verification::{verify, VerifyFailure};
use plonkish::witness::WitnessTable;

fn fe(v: u64) -> FieldElement {
    FieldElement::from_u64(v)
}

/// Runs the one-column circuit on `public_input` and verifies it against
/// the same public input.
fn prove_rotations(circuit: &MyCircuit, public_input: Vec<FieldElement>) -> Vec<VerifyFailure> {
    let prover = MockProver::run(circuit, public_input).unwrap();
    prover.verify()
}

fn resolve_rotations(circuit: &MyCircuit, public_input: Vec<FieldElement>) -> (ConstraintSystem, WitnessTable) {
    let mut cs = ConstraintSystem::new();
    let config = MyCircuit::configure(&mut cs).unwrap();
    cs.freeze();
    let mut layouter = Layouter::new(&cs, public_input);
    circuit.synthesize(config, &mut layouter).unwrap();
    let table = layouter.finalize(&cs).unwrap();
    (cs, table)
}

fn resolve_columns(circuit: &columns::MyCircuit, public_input: Vec<FieldElement>) -> (ConstraintSystem, WitnessTable) {
    let mut cs = ConstraintSystem::new();
    let config = columns::MyCircuit::configure(&mut cs).unwrap();
    cs.freeze();
    let mut layouter = Layouter::new(&cs, public_input);
    circuit.synthesize(config, &mut layouter).unwrap();
    let table = layouter.finalize(&cs).unwrap();
    (cs, table)
}

fn prove_columns(circuit: &columns::MyCircuit, public_input: Vec<FieldElement>) -> Vec<VerifyFailure> {
    MockProver::run(circuit, public_input).unwrap().verify()
}

#[test]
fn fibonacci_example2() {
    let a = FieldElement::from_u64(1); // F[0]
    let b = FieldElement::from_u64(1); // F[1]
    let out = FieldElement::from_u64(55); // F[9]

    let circuit = MyCircuit { a: Some(a), b: Some(b) };

    let mut public_input = vec![a, b, out];

    let failures = prove_rotations(&circuit, public_input.clone());
    assert_eq!(failures, vec![]);

    public_input[2] = public_input[2].plus(&FieldElement::one());
    let failures = prove_rotations(&circuit, public_input);
    assert_eq!(failures.len(), 1);
}

#[test]
fn ten_terms_down_one_column_end_at_fifty_five() {
    let circuit = MyCircuit { a: Some(fe(1)), b: Some(fe(1)) };
    let (_, table) = resolve_rotations(&circuit, vec![fe(1), fe(1), fe(55)]);
    let advice = Column { kind: ColumnKind::Advice, index: 0 };
    let expected = [1u64, 1, 2, 3, 5, 8, 13, 21, 34, 55];
    for (row, term) in expected.iter().enumerate() {
        assert_eq!(table.stored_value(Cell { column: advice, row }), Some(fe(*term)));
    }
    assert_eq!(table.rows(), 10);
    let selector = Column { kind: ColumnKind::Selector, index: 0 };
    for row in 0..10 {
        assert_eq!(table.is_enabled(selector, row), row < 8, "row {}", row);
    }
    assert_eq!(table.bindings().len(), 3);
    assert_eq!(table.regions().len(), 1);
    assert_eq!(table.regions()[0].name, "entire fibonacci table");
}

#[test]
fn eight_rows_over_three_columns_end_at_fifty_five() {
    let circuit = columns::MyCircuit { a: Some(fe(1)), b: Some(fe(1)) };
    let (_, table) = resolve_columns(&circuit, vec![fe(1), fe(1), fe(55)]);
    let expected = [1u64, 1, 2, 3, 5, 8, 13, 21, 34, 55];
    for row in 0..8 {
        for j in 0..3 {
            let column = Column { kind: ColumnKind::Advice, index: j };
            assert_eq!(
                table.stored_value(Cell { column, row }),
                Some(fe(expected[row + j])),
                "row {} column {}",
                row,
                j
            );
        }
    }
    assert_eq!(table.rows(), 8);
    assert_eq!(table.regions().len(), 8);
    assert_eq!(table.regions()[0].name, "first row");
    assert_eq!(table.regions()[7].name, "next row");
    assert_eq!(table.bindings().len(), 3);
    assert_eq!(table.bindings()[2].cell, Cell { column: Column { kind: ColumnKind::Advice, index: 2 }, row: 7 });
    assert_eq!(table.bindings()[2].row, 2);
}

#[test]
fn both_layouts_accept_the_true_output() {
    let public_input = vec![fe(1), fe(1), fe(55)];
    assert_eq!(
        prove_rotations(&MyCircuit { a: Some(fe(1)), b: Some(fe(1)) }, public_input.clone()),
        vec![]
    );
    assert_eq!(
        prove_columns(&columns::MyCircuit { a: Some(fe(1)), b: Some(fe(1)) }, public_input),
        vec![]
    );
}

#[test]
fn both_layouts_report_a_wrong_output_as_one_public_input_mismatch() {
    let public_input = vec![fe(1), fe(1), fe(56)];
    let advice0 = Column { kind: ColumnKind::Advice, index: 0 };
    let advice2 = Column { kind: ColumnKind::Advice, index: 2 };
    let instance = Column { kind: ColumnKind::Instance, index: 0 };
    assert_eq!(
        prove_rotations(&MyCircuit { a: Some(fe(1)), b: Some(fe(1)) }, public_input.clone()),
        vec![VerifyFailure::PublicInputMismatch {
            binding: 2,
            cell: Cell { column: advice0, row: 9 },
            instance,
            row: 2
        }]
    );
    assert_eq!(
        prove_columns(&columns::MyCircuit { a: Some(fe(1)), b: Some(fe(1)) }, public_input),
        vec![VerifyFailure::PublicInputMismatch {
            binding: 2,
            cell: Cell { column: advice2, row: 7 },
            instance,
            row: 2
        }]
    );
}

#[test]
fn one_table_is_verified_against_several_public_inputs() {
    let circuit = columns::MyCircuit { a: Some(fe(1)), b: Some(fe(1)) };
    let (cs, table) = resolve_columns(&circuit, vec![fe(1), fe(1), fe(55)]);
    let good = vec![fe(1), fe(1), fe(55)];
    let bad = vec![fe(1), fe(2), fe(56)];
    let short = vec![fe(1)];
    let first = verify(&cs, &table, &good);
    let wrong = verify(&cs, &table, &bad);
    let again = verify(&cs, &table, &good);
    assert_eq!(first, vec![]);
    assert_eq!(first, again);
    assert_eq!(wrong.len(), 2);
    assert_eq!(wrong, verify(&cs, &table, &bad));
    assert!(wrong.iter().all(|f| matches!(f, VerifyFailure::PublicInputMismatch { .. })));
    assert_eq!(verify(&cs, &table, &short).len(), 2);
}

#[test]
fn a_run_is_verified_against_any_public_input() {
    let circuit = MyCircuit { a: Some(fe(1)), b: Some(fe(1)) };
    let prover = MockProver::run(&circuit, vec![fe(1), fe(1), fe(55)]).unwrap();
    assert!(prover.system().is_frozen());
    assert_eq!(prover.table().rows(), 10);
    assert_eq!(prover.verify(), vec![]);
    assert!(prover.is_satisfied());
    assert_eq!(prover.verify_against(&vec![fe(1), fe(1), fe(55)]), vec![]);
    assert_eq!(prover.verify_against(&vec![fe(1), fe(1), fe(56)]).len(), 1);
    assert_eq!(prover.verify_against(&vec![fe(2), fe(1), fe(56)]).len(), 2);
    assert_eq!(prover.verify(), vec![]);
    // A public input without the seeds ends the run in synthesis.
    assert_eq!(
        MockProver::run(&circuit, vec![fe(1)]).err(),
        Some(SynthesisError::UnassignedCell {
            column: Column { kind: ColumnKind::Advice, index: 0 },
            row: 2,
            rotation: 0
        })
    );
}

#[test]
fn a_run_against_a_wrong_output_is_not_satisfied() {
    let circuit = columns::MyCircuit { a: Some(fe(1)), b: Some(fe(1)) };
    assert!(MockProver::run(&circuit, vec![fe(1), fe(1), fe(55)]).unwrap().is_satisfied());
    assert!(!MockProver::run(&circuit, vec![fe(1), fe(1), fe(56)]).unwrap().is_satisfied());
    assert!(!MockProver::run(&circuit, vec![fe(1), fe(1)]).unwrap().is_satisfied());
}

#[test]
fn other_seeds_give_other_sequences() {
    let circuit = columns::MyCircuit { a: Some(fe(2)), b: Some(fe(5)) };
    // 2 5 7 12 19 31 50 81 131 212
    assert_eq!(prove_columns(&circuit, vec![fe(2), fe(5), fe(212)]), vec![]);
    assert_eq!(prove_columns(&circuit, vec![fe(2), fe(5), fe(213)]).len(), 1);
    // The seeds are bound too.
    assert_eq!(prove_columns(&circuit, vec![fe(3), fe(5), fe(212)]).len(), 1);
    let rotated = MyCircuit { a: None, b: None };
    assert_eq!(prove_rotations(&rotated, vec![fe(2), fe(5), fe(212)]), vec![]);
    assert_eq!(prove_rotations(&rotated, vec![fe(2), fe(5), fe(211)]).len(), 1);
}

#[test]
fn a_forged_witness_breaks_the_recurrence() {
    let mut cs = ConstraintSystem::new();
    let config = columns::MyCircuit::configure(&mut cs).unwrap();
    cs.freeze();
    let public_input = vec![fe(1), fe(1), fe(3)];
    let mut layouter = Layouter::new(&cs, public_input.clone());
    let region = layouter.region("forged".to_string());
    layouter.enable_selector(region, config.selector, 0).unwrap();
    layouter.assign_advice(region, config.advice[0], 0, Some(fe(1))).unwrap();
    layouter.assign_advice(region, config.advice[1], 0, Some(fe(1))).unwrap();
    let c = layouter.assign_advice(region, config.advice[2], 0, Some(fe(3))).unwrap();
    layouter.constrain_instance(c, config.instance, 2).unwrap();
    let table = layouter.finalize(&cs).unwrap();
    let failures = verify(&cs, &table, &public_input);
    assert_eq!(failures.len(), 1);
    match &failures[0] {
        VerifyFailure::ConstraintNotSatisfied { gate_name, constraint_name, cell_values, .. } => {
            assert_eq!(gate_name, "add");
            assert_eq!(constraint_name, "add");
            let written: Vec<String> = cell_values.iter().map(|r| r.value.format()).collect();
            assert_eq!(written, vec!["1", "1", "0x3"]);
        }
        other => panic!("unexpected failure {:?}", other),
    }
}

#[test]
fn missing_seeds_end_synthesis() {
    let mut cs = ConstraintSystem::new();
    let config = columns::MyCircuit::configure(&mut cs).unwrap();
    cs.freeze();
    let mut layouter = Layouter::new(&cs, vec![]);
    let circuit = columns::MyCircuit { a: Some(fe(1)), b: None };
    assert_eq!(
        circuit.synthesize(config, &mut layouter),
        Err(SynthesisError::UnassignedCell { column: config.advice[1], row: 0, rotation: 0 })
    );
    assert_eq!(circuit.without_witnesses(), columns::MyCircuit { a: None, b: None });

    let mut cs = ConstraintSystem::new();
    let config = MyCircuit::configure(&mut cs).unwrap();
    cs.freeze();
    let mut layouter = Layouter::new(&cs, vec![fe(1)]);
    let circuit = MyCircuit { a: Some(fe(1)), b: Some(fe(1)) };
    assert_eq!(
        circuit.synthesize(config, &mut layouter),
        Err(SynthesisError::UnassignedCell { column: config.advice, row: 2, rotation: 0 })
    );
    assert_eq!(circuit.without_witnesses(), MyCircuit { a: None, b: None });
}

#[test]
fn a_short_table_keeps_its_two_seeds() {
    let mut cs = ConstraintSystem::new();
    let config = MyCircuit::configure(&mut cs).unwrap();
    cs.freeze();
    let chip = FibonacciChip::construct(config);
    let mut layouter = Layouter::new(&cs, vec![fe(4), fe(6)]);
    let out = chip.assign(&mut layouter, 0).unwrap();
    assert_eq!(out.cell, Cell { column: config.advice, row: 1 });
    assert_eq!(out.value, Some(fe(6)));
    assert_eq!(layouter.rows(), 2);
    let mut layouter = Layouter::new(&cs, vec![fe(4), fe(6)]);
    let out = chip.assign(&mut layouter, 4).unwrap();
    assert_eq!(out.cell, Cell { column: config.advice, row: 3 });
    assert_eq!(out.value, Some(fe(16)));
    assert_eq!(chip.expose_public(&mut layouter, out, 7), Ok(()));
    // Rows 0 and 1 are gated, and the last row that they read is row 3.
    let table = layouter.finalize(&cs).unwrap();
    assert_eq!(table.bindings().len(), 3);
    assert_eq!(verify(&cs, &table, &vec![fe(4), fe(6)]).len(), 1);
}

#[test]
fn the_chips_want_columns_that_can_be_tied() {
    let mut cs = ConstraintSystem::new();
    let advice = cs.allocate_column(ColumnKind::Advice).unwrap();
    let fixed = cs.allocate_column(ColumnKind::Fixed).unwrap();
    let instance = cs.allocate_column(ColumnKind::Instance).unwrap();
    assert_eq!(
        FibonacciChip::configure(&mut cs, fixed, instance),
        Err(ConfigurationError::WrongColumnKind)
    );
    assert_eq!(
        columns::FiboChip::configure(&mut cs, [advice, advice, fixed], instance),
        Err(ConfigurationError::WrongColumnKind)
    );
    assert_eq!(cs.gates().len(), 0);
    let config = FibonacciChip::configure(&mut cs, advice, instance).unwrap();
    assert_eq!(config.selector, Column { kind: ColumnKind::Selector, index: 0 });
    assert_eq!(cs.equality_columns(), &vec![advice, instance]);
    cs.freeze();
    assert_eq!(FibonacciChip::configure(&mut cs, advice, instance), Err(ConfigurationError::Frozen));
    assert_eq!(MyCircuit::configure(&mut cs), Err(ConfigurationError::Frozen));
    assert_eq!(columns::MyCircuit::configure(&mut cs), Err(ConfigurationError::Frozen));
}
