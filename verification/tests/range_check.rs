use plonkish::column::{Cell, Column, ColumnKind};
use plonkish::field::FieldElement;
use plonkish::layout::{AssignmentError, CellState, SynthesisError};
use plonkish::layouter::Layouter;
use plonkish::prover::{Circuit, MockProver};
use plonkish::range_check::gate::{range_check_expression, MyCircuit, RangeCheckConfig};
use plonkish::range_check::lookup;
use plonkish::range_check::table::RangeCheckTable;
use plonkish::system::{ConfigurationError, ConstraintSystem};
use plonkish::verification::{verify, CellReading, FailureLocation, VerifyFailure};
use plonkish::expression::Expression;
use plonkish::witness::WitnessTable;

/// Runs the circuit of the range check by gate and verifies it.
fn prove_gate<const RANGE: usize>(circuit: &MyCircuit<RANGE>) -> Vec<VerifyFailure> {
    MockProver::run(circuit, vec![]).unwrap().verify()
}

/// The same for the circuit of the range check by gate or lookup.
fn prove_lookup<const RANGE: usize, const LOOKUP_RANGE: usize>(
    circuit: &lookup::MyCircuit<RANGE, LOOKUP_RANGE>,
) -> Vec<VerifyFailure> {
    MockProver::run(circuit, vec![]).unwrap().verify()
}

#[test]
fn example1_test_range_check_1() {
    const RANGE: usize = 8; // 3-bit value

    // Successful cases
    for i in 0..RANGE {
        let circuit = MyCircuit::<RANGE> { value: Some(FieldElement::from_u64(i as u64)) };
        assert_eq!(prove_gate(&circuit), vec![]);
    }

    // Out-of-range `value = 8`
    {
        let circuit = MyCircuit::<RANGE> { value: Some(FieldElement::from_u64(RANGE as u64)) };
        let failures = prove_gate(&circuit);
        assert_eq!(
            failures,
            vec![VerifyFailure::ConstraintNotSatisfied {
                gate: 0,
                gate_name: "range check".to_string(),
                constraint: 0,
                constraint_name: "range check".to_string(),
                location: FailureLocation::InRegion {
                    region: 0,
                    name: "Assign value".to_string(),
                    offset: 0
                },
                cell_values: vec![CellReading {
                    column: Column { kind: ColumnKind::Advice, index: 0 },
                    rotation: 0,
                    value: CellState::Known(FieldElement::from_u64(8)),
                }],
            }]
        );
        match &failures[0] {
            VerifyFailure::ConstraintNotSatisfied { cell_values, .. } => {
                assert_eq!(cell_values[0].value.format(), "0x8".to_string());
            }
            other => panic!("unexpected failure {:?}", other),
        }
    }
}

#[test]
fn example2_test_range_check_1() {
    const RANGE: usize = 8; // 3-bit value
    const LOOKUP_RANGE: usize = 256; // 8-bit value

    // Successful cases
    for i in 0..RANGE {
        let circuit = lookup::MyCircuit::<RANGE, LOOKUP_RANGE> {
            value: Some(FieldElement::from_u64(i as u64)),
            large_value: Some(FieldElement::from_u64(i as u64)),
        };
        assert_eq!(prove_lookup(&circuit), vec![]);
    }
}

#[test]
fn the_gate_passes_the_range_and_nothing_above_it() {
    for v in 0..40u64 {
        let failures = prove_gate(&MyCircuit::<17> { value: Some(FieldElement::from_u64(v)) });
        assert_eq!(failures.is_empty(), v < 17, "value {}", v);
        assert!(failures.len() <= 1);
    }
    let top = FieldElement::one().negated();
    assert_eq!(prove_gate(&MyCircuit::<17> { value: Some(top) }).len(), 1);
}

#[test]
fn an_empty_range_holds_no_value() {
    assert_eq!(prove_gate(&MyCircuit::<0> { value: Some(FieldElement::zero()) }).len(), 1);
    assert_eq!(prove_gate(&MyCircuit::<1> { value: Some(FieldElement::zero()) }), vec![]);
    assert_eq!(prove_gate(&MyCircuit::<1> { value: Some(FieldElement::one()) }).len(), 1);
}

#[test]
fn the_range_product_is_built_from_one() {
    let value = Expression::query(Column { kind: ColumnKind::Advice, index: 0 }, 0);
    assert_eq!(
        range_check_expression(0, &value),
        Expression::constant(FieldElement::one())
    );
    assert_eq!(
        range_check_expression(2, &value),
        Expression::product(
            Expression::product(
                Expression::constant(FieldElement::one()),
                Expression::difference(
                    Expression::constant(FieldElement::zero()),
                    value.duplicate()
                ),
            ),
            Expression::difference(Expression::constant(FieldElement::one()), value.duplicate()),
        )
    );
}

#[test]
fn the_lookup_finds_the_values_below_its_range_only() {
    const RANGE: usize = 8;
    const LOOKUP_RANGE: usize = 256;
    for v in [0u64, 1, 7, 8, 100, 255] {
        let circuit = lookup::MyCircuit::<RANGE, LOOKUP_RANGE> {
            value: Some(FieldElement::from_u64(3)),
            large_value: Some(FieldElement::from_u64(v)),
        };
        assert_eq!(prove_lookup(&circuit), vec![], "value {}", v);
    }
    for v in [256u64, 257, 1000, u64::MAX] {
        let circuit = lookup::MyCircuit::<RANGE, LOOKUP_RANGE> {
            value: Some(FieldElement::from_u64(3)),
            large_value: Some(FieldElement::from_u64(v)),
        };
        assert_eq!(
            prove_lookup(&circuit),
            vec![VerifyFailure::LookupFailure {
                lookup: 0,
                location: FailureLocation::InRegion {
                    region: 1,
                    name: "Assign value for lookup range check".to_string(),
                    offset: 0
                },
                value: CellState::Known(FieldElement::from_u64(v)),
            }],
            "value {}",
            v
        );
    }
}

#[test]
fn a_value_at_the_lookup_range_is_cited_in_the_failure() {
    let circuit = lookup::MyCircuit::<8, 256> {
        value: Some(FieldElement::from_u64(0)),
        large_value: Some(FieldElement::from_u64(256)),
    };
    let failures = prove_lookup(&circuit);
    assert_eq!(failures.len(), 1);
    match &failures[0] {
        VerifyFailure::LookupFailure { lookup, location, value } => {
            assert_eq!(*lookup, 0);
            assert_eq!(
                *location,
                FailureLocation::InRegion {
                    region: 1,
                    name: "Assign value for lookup range check".to_string(),
                    offset: 0
                }
            );
            assert_eq!(value.format(), "0x100");
        }
        other => panic!("unexpected failure {:?}", other),
    }
}

#[test]
fn a_small_range_goes_through_the_polynomial() {
    // With `range` below `RANGE` the value is checked by the polynomial: 9
    // is in the table of 0..256 and still fails.
    let mut cs = ConstraintSystem::new();
    let config = lookup::MyCircuit::<8, 256>::configure(&mut cs).unwrap();
    cs.freeze();
    let mut layouter = Layouter::new(&cs, vec![]);
    config.table.load(&mut layouter).unwrap();
    config.assign(&mut layouter, Some(FieldElement::from_u64(9)), 7).unwrap();
    config.assign(&mut layouter, Some(FieldElement::from_u64(9)), 8).unwrap();
    let table = layouter.finalize(&cs).unwrap();
    let failures = verify(&cs, &table, &vec![]);
    assert_eq!(failures.len(), 1);
    match &failures[0] {
        VerifyFailure::ConstraintNotSatisfied { location, cell_values, .. } => {
            assert_eq!(
                *location,
                FailureLocation::InRegion { region: 0, name: "Assign value".to_string(), offset: 0 }
            );
            assert_eq!(cell_values.len(), 1);
            assert_eq!(cell_values[0].value.format(), "0x9");
        }
        other => panic!("unexpected failure {:?}", other),
    }
}

#[test]
fn the_table_holds_its_row_numbers() {
    let mut cs = ConstraintSystem::new();
    let table = RangeCheckTable::<5>::configure(&mut cs).unwrap();
    assert_eq!(table.value, Column { kind: ColumnKind::Fixed, index: 0 });
    cs.freeze();
    let mut layouter = Layouter::new(&cs, vec![]);
    assert_eq!(table.load(&mut layouter), Ok(()));
    assert_eq!(
        table.load(&mut layouter),
        Err(SynthesisError::Assignment(AssignmentError::CellAlreadyAssigned))
    );
    let resolved: WitnessTable = layouter.finalize(&cs).unwrap();
    for i in 0..5usize {
        assert_eq!(
            resolved.stored_value(Cell { column: table.value, row: i }),
            Some(FieldElement::from_u64(i as u64))
        );
    }
    assert_eq!(resolved.stored_value(Cell { column: table.value, row: 5 }), None);
    assert_eq!(resolved.cells().len(), 5);
}

#[test]
fn a_table_in_a_column_that_is_not_fixed_is_refused() {
    let cs = ConstraintSystem::new();
    let mut layouter = Layouter::new(&cs, vec![]);
    let table = RangeCheckTable::<4> { value: Column { kind: ColumnKind::Advice, index: 0 } };
    assert_eq!(
        table.load(&mut layouter),
        Err(SynthesisError::Configuration(ConfigurationError::WrongColumnKind))
    );
}

#[test]
fn configuration_is_refused_once_frozen() {
    let mut cs = ConstraintSystem::new();
    let value = cs.allocate_column(ColumnKind::Advice).unwrap();
    let selector = cs.allocate_column(ColumnKind::Selector).unwrap();
    assert_eq!(
        RangeCheckConfig::<8>::configure(&mut cs, selector),
        Err(ConfigurationError::WrongColumnKind)
    );
    assert_eq!(
        lookup::RangeCheckConfig::<8, 16>::configure(&mut cs, selector),
        Err(ConfigurationError::WrongColumnKind)
    );
    let config = RangeCheckConfig::<8>::configure(&mut cs, value).unwrap();
    assert_eq!(config.value, value);
    assert_eq!(config.q_range_check, Column { kind: ColumnKind::Selector, index: 1 });
    assert_eq!(cs.gates().len(), 1);
    assert_eq!(cs.gates()[0].name, "range check");
    assert_eq!(cs.gates()[0].constraints[0].name, "range check");
    cs.freeze();
    assert_eq!(RangeCheckConfig::<8>::configure(&mut cs, value), Err(ConfigurationError::Frozen));
    assert_eq!(MyCircuit::<8>::configure(&mut cs), Err(ConfigurationError::Frozen));
    assert_eq!(RangeCheckTable::<8>::configure(&mut cs), Err(ConfigurationError::Frozen));
    assert_eq!(lookup::MyCircuit::<8, 16>::configure(&mut cs), Err(ConfigurationError::Frozen));
    assert_eq!(cs.gates().len(), 1);
}

#[test]
fn a_circuit_without_witness_cannot_be_synthesized() {
    let circuit = MyCircuit::<8> { value: Some(FieldElement::from_u64(3)) }.without_witnesses();
    assert_eq!(circuit.value, None);
    let mut cs = ConstraintSystem::new();
    let config = MyCircuit::<8>::configure(&mut cs).unwrap();
    cs.freeze();
    let mut layouter = Layouter::new(&cs, vec![]);
    assert_eq!(
        circuit.synthesize(config, &mut layouter),
        Err(SynthesisError::UnassignedCell { column: config.value, row: 0, rotation: 0 })
    );
    let both = lookup::MyCircuit::<8, 16> {
        value: Some(FieldElement::from_u64(3)),
        large_value: Some(FieldElement::from_u64(3)),
    }
    .without_witnesses();
    assert_eq!((both.value, both.large_value), (None, None));
    assert_eq!(
        MockProver::run(&both, vec![]).err(),
        Some(SynthesisError::UnassignedCell {
            column: Column { kind: ColumnKind::Advice, index: 0 },
            row: 0,
            rotation: 0
        })
    );
}
