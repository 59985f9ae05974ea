use halo2_proofs::circuit::{Cell as HaloCell, Layouter as HaloLayouter, SimpleFloorPlanner, Value};
use halo2_proofs::dev::MockProver as HaloProver;
use halo2_proofs::pasta::group::ff::PrimeField;
use halo2_proofs::pasta::Fp;
use halo2_proofs::plonk::{
    Advice, Circuit as HaloCircuit, Column as HaloColumn, ConstraintSystem as HaloSystem,
    Constraints, Error, Expression as HaloExpression, Instance, Selector, TableColumn,
    VirtualCells,
};
use halo2_proofs::poly::Rotation;
use plonkish::column::ColumnKind;
use plonkish::expression::Expression;
use plonkish::fibonacci::{columns, rotations};
use plonkish::field::FieldElement;
use plonkish::layout::CellState;
use plonkish::layouter::Layouter;
use plonkish::prover::{Circuit, MockProver};
use plonkish::range_check::{gate, lookup};
use plonkish::system::ConstraintSystem;

/// The element as `halo2_proofs` holds it.
fn to_fp(value: &FieldElement) -> Fp {
    Fp::from_repr(value.to_repr()).unwrap()
}

/// The columns of a circuit as `halo2_proofs` allocated them, each list in
/// the order of the indices of its kind.
#[derive(Clone, Debug)]
struct Columns {
    advice: Vec<HaloColumn<Advice>>,
    instance: Vec<HaloColumn<Instance>>,
    tables: Vec<TableColumn>,
    selectors: Vec<Selector>,
}

/// A circuit handed to `halo2_proofs`: configured and synthesized by the
/// library, then replayed call by call.
struct Backend<C: Circuit> {
    circuit: C,
    public_input: Vec<FieldElement>,
}

/// The system that the circuit configures, frozen, and its columns.
fn configured<C: Circuit>() -> (ConstraintSystem, C::Config) {
    let mut system = ConstraintSystem::new();
    let config = match C::configure(&mut system) {
        Ok(config) => config,
        Err(e) => panic!("a new system refused the configuration: {:?}", e),
    };
    system.freeze();
    (system, config)
}

fn translate(e: &Expression, cells: &mut VirtualCells<'_, Fp>, columns: &Columns) -> HaloExpression<Fp> {
    match e {
        Expression::Constant(c) => HaloExpression::Constant(to_fp(c)),
        Expression::ColumnQuery(column, rotation) => match column.kind {
            ColumnKind::Advice => cells.query_advice(columns.advice[column.index], Rotation(*rotation)),
            ColumnKind::Instance => {
                cells.query_instance(columns.instance[column.index], Rotation(*rotation))
            }
            ColumnKind::Fixed | ColumnKind::Selector => {
                panic!("halo2_proofs lets no constraint read a table column or a selector by rotation")
            }
        },
        Expression::Selector(column) => cells.query_selector(columns.selectors[column.index]),
        Expression::Sum(a, b) => translate(a, cells, columns) + translate(b, cells, columns),
        Expression::Product(a, b) => translate(a, cells, columns) * translate(b, cells, columns),
        Expression::Negate(a) => -translate(a, cells, columns),
        Expression::ScalarMul(a, c) => translate(a, cells, columns) * to_fp(c),
    }
}

impl<C: Circuit> HaloCircuit<Fp> for Backend<C> {
    type Config = Columns;
    type FloorPlanner = SimpleFloorPlanner;

    fn without_witnesses(&self) -> Self {
        Backend {
            circuit: self.circuit.without_witnesses(),
            public_input: self.public_input.clone(),
        }
    }

    fn configure(meta: &mut HaloSystem<Fp>) -> Columns {
        let (system, _) = configured::<C>();
        let mut columns =
            Columns { advice: vec![], instance: vec![], tables: vec![], selectors: vec![] };
        for column in system.columns() {
            match column.kind {
                ColumnKind::Advice => columns.advice.push(meta.advice_column()),
                ColumnKind::Instance => columns.instance.push(meta.instance_column()),
                ColumnKind::Fixed => columns.tables.push(meta.lookup_table_column()),
                ColumnKind::Selector => columns.selectors.push(meta.complex_selector()),
            }
        }
        for column in system.equality_columns() {
            match column.kind {
                ColumnKind::Advice => meta.enable_equality(columns.advice[column.index]),
                ColumnKind::Instance => meta.enable_equality(columns.instance[column.index]),
                ColumnKind::Fixed | ColumnKind::Selector => {}
            }
        }
        for gate in system.gates() {
            if gate.constraints.is_empty() {
                continue;
            }
            let name: &'static str = Box::leak(gate.name.clone().into_boxed_str());
            meta.create_gate(name, |cells| {
                let selector = cells.query_selector(columns.selectors[gate.selector.index]);
                let mut constraints: Vec<(&'static str, HaloExpression<Fp>)> = vec![];
                for constraint in &gate.constraints {
                    let name: &'static str = Box::leak(constraint.name.clone().into_boxed_str());
                    constraints.push((name, translate(&constraint.expression, cells, &columns)));
                }
                Constraints::with_selector(selector, constraints)
            });
        }
        for lookup in system.lookups() {
            meta.lookup(|cells| {
                vec![(translate(&lookup.input, cells, &columns), columns.tables[lookup.table.index])]
            });
        }
        columns
    }

    fn synthesize(&self, config: Columns, mut layouter: impl HaloLayouter<Fp>) -> Result<(), Error> {
        let (system, columns) = configured::<C>();
        let mut layout = Layouter::new(&system, self.public_input.clone());
        if self.circuit.synthesize(columns, &mut layout).is_err() {
            return Err(Error::Synthesis);
        }
        let slots = layout.slots();
        for table in layout.tables() {
            layouter.assign_table(
                || "table",
                |mut rows| {
                    for slot in slots.iter().filter(|s| s.cell.column == *table) {
                        let value = match slot.value {
                            Some(v) => Value::known(to_fp(&v)),
                            None => Value::unknown(),
                        };
                        rows.assign_cell(|| "row", config.tables[table.index], slot.cell.row, || value)?;
                    }
                    Ok(())
                },
            )?;
        }
        let mut handles: Vec<Option<HaloCell>> = vec![None; slots.len()];
        for region in layout.regions() {
            let rows = region.start..region.start + region.rows;
            layouter.assign_region(
                || region.name.clone(),
                |mut cells| {
                    for enabled in layout.selectors().iter().filter(|c| rows.contains(&c.row)) {
                        let selector = config.selectors[enabled.column.index];
                        selector.enable(&mut cells, enabled.row - region.start)?;
                    }
                    for (k, slot) in slots.iter().enumerate() {
                        if slot.cell.column.kind != ColumnKind::Advice || !rows.contains(&slot.cell.row) {
                            continue;
                        }
                        let value = match layout.cell_state(slot.cell) {
                            CellState::Known(v) => Value::known(to_fp(&v)),
                            _ => Value::unknown(),
                        };
                        let assigned = cells.assign_advice(
                            || "cell",
                            config.advice[slot.cell.column.index],
                            slot.cell.row - region.start,
                            || value,
                        )?;
                        handles[k] = Some(assigned.cell());
                    }
                    // Tie every cell to the first cell of its copy group, in
                    // the region of whichever of the two comes later.
                    for (k, slot) in slots.iter().enumerate() {
                        let first = slots.iter().position(|s| s.group == slot.group);
                        if let (Some(j), Some(cell)) = (first, handles[k]) {
                            let here = rows.contains(&slot.cell.row)
                                || rows.contains(&slots[j].cell.row);
                            if let (true, true, Some(other)) = (j < k, here, handles[j]) {
                                cells.constrain_equal(other, cell)?;
                            }
                        }
                    }
                    Ok(())
                },
            )?;
        }
        for binding in layout.bindings() {
            let bound = slots.iter().position(|s| s.cell == binding.cell).and_then(|k| handles[k]);
            if let Some(cell) = bound {
                layouter.constrain_instance(cell, config.instance[binding.instance.index], binding.row)?;
            }
        }
        Ok(())
    }
}

/// Whether `halo2_proofs` finds the circuit satisfied, run on a table of
/// `2^k` rows.
fn satisfied_by_halo2<C: Circuit>(k: u32, circuit: C, public_input: &[FieldElement]) -> bool {
    let (system, _) = configured::<C>();
    let instance_columns =
        system.columns().iter().filter(|c| c.kind == ColumnKind::Instance).count();
    let instance: Vec<Fp> = public_input.iter().map(to_fp).collect();
    let backend = Backend { circuit, public_input: public_input.to_vec() };
    let prover = HaloProver::run(k, &backend, vec![instance; instance_columns]).unwrap();
    prover.verify().is_ok()
}

/// Whether the library finds the circuit satisfied.
fn satisfied_by_library<C: Circuit>(circuit: &C, public_input: &[FieldElement]) -> bool {
    MockProver::run(circuit, public_input.to_vec()).unwrap().is_satisfied()
}

fn fe(v: u64) -> FieldElement {
    FieldElement::from_u64(v)
}

#[test]
fn the_backend_agrees_on_the_range_check_by_gate() {
    for v in 0..12u64 {
        let circuit = gate::MyCircuit::<8> { value: Some(fe(v)) };
        assert_eq!(satisfied_by_library(&circuit, &[]), v < 8, "value {}", v);
        assert_eq!(satisfied_by_halo2(4, circuit, &[]), v < 8, "value {}", v);
    }
}

#[test]
fn the_backend_agrees_on_the_range_check_by_lookup() {
    for v in [0u64, 7, 8, 255, 256, 1000] {
        let circuit = lookup::MyCircuit::<8, 256> { value: Some(fe(3)), large_value: Some(fe(v)) };
        assert_eq!(satisfied_by_library(&circuit, &[]), v < 256, "value {}", v);
        assert_eq!(satisfied_by_halo2(9, circuit, &[]), v < 256, "value {}", v);
    }
}

#[test]
fn the_backend_agrees_on_the_recurrence_over_three_columns() {
    for out in [54u64, 55, 56] {
        let public_input = [fe(1), fe(1), fe(out)];
        let circuit = columns::MyCircuit { a: Some(fe(1)), b: Some(fe(1)) };
        assert_eq!(satisfied_by_library(&circuit, &public_input), out == 55);
        assert_eq!(satisfied_by_halo2(4, circuit, &public_input), out == 55);
    }
}

#[test]
fn the_backend_agrees_on_the_recurrence_down_one_column() {
    for out in [54u64, 55, 56] {
        let public_input = [fe(1), fe(1), fe(out)];
        let circuit = rotations::MyCircuit { a: Some(fe(1)), b: Some(fe(1)) };
        assert_eq!(satisfied_by_library(&circuit, &public_input), out == 55);
        assert_eq!(satisfied_by_halo2(4, circuit, &public_input), out == 55);
    }
}

#[test]
fn elements_pass_to_the_backend_and_back() {
    for v in [0u64, 1, 2, 255, 256, u64::MAX] {
        assert_eq!(to_fp(&fe(v)), Fp::from(v));
        assert_eq!(to_fp(&fe(v)).to_repr(), fe(v).to_repr());
    }
    let a = fe(u64::MAX);
    let b = fe(12345);
    assert_eq!(to_fp(&a.times(&b)), to_fp(&a) * to_fp(&b));
    assert_eq!(to_fp(&a.minus(&b).negated()), -(to_fp(&a) - to_fp(&b)));
}
