//! The range check by a gate: a cell holds a value of `[0, RANGE)` where
//! the product of `i - value` over the range vanishes.
//!
//! ```text
//!   value | q_range_check
//!  -------+---------------
//!     v   |       1
//! ```

use crate::column::{Cell, Column, ColumnKind, Query};
use crate::diagnosis::lemma_lookup_report_empty;
use crate::expression::{queries, queries_into, reads, well_kinded, Expression};
use crate::field::{
    element, lemma_element, lemma_product_reduced, lemma_small_is_not_zero,
    lemma_sum_with_negation, modulus, negation_mod, product_mod, sum_mod, FieldElement,
};
use crate::layout::{
    cursor, empty_layout, lemma_fresh_row, lemma_with_selector, row_added, with_value,
    AssignmentError, CellState, LayoutView, Slot, SynthesisError,
};
use crate::layouter::Layouter;
use crate::prover::{run_ends, run_outcome, Circuit, ProverView};
use crate::resolution::{
    all_valued, has_value, lemma_all_resolved, lemma_resolves_to_assigned, lemma_stored_resolved,
    lemma_untied_consistent, resolution_error, resolved_table, untied,
};
use crate::system::{
    count_of_kind, empty_system, lemma_count_other_kind, ConfigurationError, Constraint,
    ConstraintSystem, Gate, SystemView,
};
use crate::verification::{
    constraint_failure, constraint_report, gate_report, readings, region_of, report, row_report,
    CellReading, FailureLocation, FailureView,
};
use crate::witness::{
    answered, cell_state_at, enabled, eval, gate_answered, lemma_rows_complete, residue,
    row_answered, CellValue, TableView,
};
use vstd::prelude::*;
use vstd::string::StringExecFns;

verus! {

/// The columns of a range check by gate.
#[derive(Clone, Copy, Debug, PartialEq, Eq)]
pub struct RangeCheckConfig<const RANGE: usize> {
    pub value: Column,
    pub q_range_check: Column,
}

/// The product of `i - value` for `i` in `0..range`, which is zero exactly
/// where `value` is one of them.
pub open spec fn range_product(range: nat, value: Expression) -> Expression
    decreases range,
{
    if range == 0 {
        Expression::Constant(element(1))
    } else {
        Expression::Product(
            Box::new(range_product((range - 1) as nat, value)),
            Box::new(
                Expression::Sum(
                    Box::new(Expression::Constant(element((range - 1) as nat))),
                    Box::new(Expression::Negate(Box::new(value))),
                ),
            ),
        )
    }
}

/// The range product reads what `value` reads.
pub proof fn lemma_range_product_well_kinded(range: nat, value: Expression)
    ensures
        well_kinded(range_product(range, value)) == (range == 0 || well_kinded(value)),
    decreases range,
{
    reveal_with_fuel(well_kinded, 4);
    if range > 0 {
        lemma_range_product_well_kinded((range - 1) as nat, value);
    }
}

/// The value of one factor of the range product: `i - value`.
pub proof fn lemma_factor(
    i: nat,
    value: Expression,
    t: TableView,
    public: Seq<FieldElement>,
    row: int,
    v: nat,
)
    requires
        eval(value, t, public, row) == CellValue::Known(v),
        i < modulus(),
    ensures
        eval(
            Expression::Sum(
                Box::new(Expression::Constant(element(i))),
                Box::new(Expression::Negate(Box::new(value))),
            ),
            t,
            public,
            row,
        ) == CellValue::Known(sum_mod(i, negation_mod(v))),
{
    reveal_with_fuel(eval, 3);
    lemma_element(i);
}

/// The product of `i - v` for `i` in `0..range`, as an integer.
pub open spec fn differences(v: int, range: nat) -> int
    decreases range,
{
    if range == 0 {
        1
    } else {
        differences(v, (range - 1) as nat) * ((range - 1) - v)
    }
}

/// The product of `v - i` for `i` in `0..range`: how far the value is
/// from each value of the range, multiplied up.
pub open spec fn distances(v: nat, range: nat) -> nat
    decreases range,
{
    if range == 0 {
        1
    } else {
        distances(v, (range - 1) as nat) * ((v - (range - 1)) as nat)
    }
}

/// The range product is the product of the differences, reduced.
pub proof fn lemma_range_product_value(
    range: nat,
    value: Expression,
    t: TableView,
    public: Seq<FieldElement>,
    row: int,
    v: nat,
)
    requires
        eval(value, t, public, row) == CellValue::Known(v),
        range <= modulus(),
    ensures
        eval(range_product(range, value), t, public, row) == CellValue::Known(
            (differences(v as int, range) % (modulus() as int)) as nat,
        ),
    decreases range,
{
    if range == 0 {
        lemma_element(1);
        vstd::arithmetic::div_mod::lemma_small_mod(1, modulus());
    } else {
        let last = (range - 1) as nat;
        let head = range_product(last, value);
        let factor = Expression::Sum(
            Box::new(Expression::Constant(element(last))),
            Box::new(Expression::Negate(Box::new(value))),
        );
        lemma_range_product_value(last, value, t, public, row, v);
        lemma_factor(last, value, t, public, row, v);
        lemma_sum_with_negation(last, v);
        lemma_product_reduced(differences(v as int, last), last - v);
        assert(range_product(range, value) == Expression::Product(
            Box::new(head),
            Box::new(factor),
        ));
        assert(eval(range_product(range, value), t, public, row) == CellValue::Known(
            product_mod(
                residue(eval(head, t, public, row)),
                residue(eval(factor, t, public, row)),
            ),
        ));
    }
}

/// Below the range one difference is zero, and so is the product.
pub proof fn lemma_differences_in_range(v: nat, range: nat)
    requires
        v < range,
    ensures
        differences(v as int, range) == 0,
    decreases range,
{
    let last = (range - 1) as nat;
    let head = differences(v as int, last);
    if v < last {
        lemma_differences_in_range(v, last);
        assert(head * (last - v) == 0) by (nonlinear_arith)
            requires
                head == 0,
        ;
    } else {
        assert(head * (last - v) == 0) by (nonlinear_arith)
            requires
                last - v == 0,
        ;
    }
}

/// From the range on no difference is zero: the product is the product of
/// the distances, with the sign that the number of factors gives it.
pub proof fn lemma_differences_above_range(v: nat, range: nat)
    requires
        v >= range,
    ensures
        distances(v, range) > 0,
        differences(v as int, range) == distances(v, range) || differences(v as int, range) == -(
        distances(v, range) as int),
    decreases range,
{
    if range > 0 {
        let last = (range - 1) as nat;
        lemma_differences_above_range(v, last);
        let head = differences(v as int, last);
        let far = distances(v, last) as int;
        let d = (v - last) as int;
        assert(far * d > 0) by (nonlinear_arith)
            requires
                far > 0,
                d > 0,
        ;
        assert(head * (last - v) == far * d || head * (last - v) == -(far * d)) by (nonlinear_arith)
            requires
                head == far || head == -far,
                last - v == -d,
        ;
    }
}

/// The range check holds of the values of the range and of no other, as
/// far as the product of the distances stays below the order of the
/// field: where `value` is known to be `v`, the range product is zero
/// exactly where `v < range`.
pub proof fn lemma_range_check_decides(
    range: nat,
    value: Expression,
    t: TableView,
    public: Seq<FieldElement>,
    row: int,
    v: nat,
)
    requires
        eval(value, t, public, row) == CellValue::Known(v),
        range <= modulus(),
        v >= range ==> distances(v, range) < modulus(),
    ensures
        eval(range_product(range, value), t, public, row) == CellValue::Known(0) <==> v < range,
{
    lemma_range_product_value(range, value, t, public, row, v);
    if v < range {
        lemma_differences_in_range(v, range);
        vstd::arithmetic::div_mod::lemma_small_mod(0, modulus());
    } else {
        lemma_differences_above_range(v, range);
        lemma_small_is_not_zero(differences(v as int, range));
    }
}

/// What the range-check gate reports for a cell that holds `v`, as far as
/// the product of the distances stays below the order of the field: for a
/// value of the range nothing, and for any other value, on a row where the
/// selector is enabled, the one record of its constraint.
pub proof fn lemma_range_check_reports(
    g: int,
    gate: Gate,
    selector: Column,
    value: Column,
    range: nat,
    t: TableView,
    public: Seq<FieldElement>,
    row: int,
    v: nat,
)
    requires
        is_range_check_gate(gate, selector, value, range),
        cell_state_at(t, public, value, row)@ == CellValue::Known(v),
        range <= modulus(),
        v >= range ==> distances(v, range) < modulus(),
    ensures
        gate_report(g, gate, gate.constraints@.len() as int, t, public, row) == if v < range
            || !enabled(t, selector, row) {
            Seq::<FailureView>::empty()
        } else {
            seq![constraint_failure(g, gate, 0, t, public, row)]
        },
{
    let queried = Expression::ColumnQuery(value, 0);
    assert(eval(queried, t, public, row) == CellValue::Known(v));
    lemma_range_check_decides(range, queried, t, public, row, v);
    reveal_with_fuel(gate_report, 2);
    assert(gate_report(g, gate, 1, t, public, row) =~= if v < range || !enabled(t, selector, row) {
        Seq::<FailureView>::empty()
    } else {
        seq![constraint_failure(g, gate, 0, t, public, row)]
    });
}

/// The queries of the range product: those of `value`, gathered once, and
/// none where the range is empty.
pub proof fn lemma_range_product_queries(range: nat, column: Column, acc: Seq<Query>)
    ensures
        queries_into(range_product(range, Expression::ColumnQuery(column, 0)), acc) == if range == 0
            || acc.contains(Query { column, rotation: 0 }) {
            acc
        } else {
            acc.push(Query { column, rotation: 0 })
        },
    decreases range,
{
    reveal_with_fuel(queries_into, 4);
    let q = Query { column, rotation: 0 };
    if range > 0 {
        lemma_range_product_queries((range - 1) as nat, column, acc);
        if !acc.contains(q) {
            assert(acc.push(q)[acc.len() as int] == q);
        }
    }
}

/// The range product makes the queries that `value` makes, and none where
/// the range is empty.
pub proof fn lemma_range_product_reads(range: nat, value: Expression, q: Query)
    ensures
        reads(range_product(range, value), q) <==> range > 0 && reads(value, q),
    decreases range,
{
    reveal_with_fuel(reads, 4);
    if range > 0 {
        lemma_range_product_reads((range - 1) as nat, value, q);
    }
}

/// What the one record of a run with a value outside the range says: the
/// constraint "range check" of gate 0, in region 0, "Assign value", at
/// offset 0, and the value that the checked cell holds.
pub open spec fn out_of_range(f: FailureView, range: nat, x: FieldElement) -> bool {
    f matches FailureView::ConstraintNotSatisfied {
        gate,
        gate_name,
        constraint,
        constraint_name,
        location,
        cell_values,
    } && gate == 0 && gate_name@ == "range check"@ && constraint == 0 && constraint_name@
        == "range check"@ && (location matches FailureLocation::InRegion { region, name, offset }
        && region == 0 && name@ == "Assign value"@ && offset == 0) && cell_values == if range == 0 {
        Seq::<CellReading>::empty()
    } else {
        seq![
            CellReading {
                column: Column { kind: ColumnKind::Advice, index: 0 },
                rotation: 0,
                value: CellState::Known(x),
            },
        ]
    }
}

/// What a run of the circuit comes to. Without a witness it ends in
/// synthesis, on the cell that has no value. With one it succeeds, and
/// verification against any public input reports nothing where the
/// witness is a value of the range, and one violated constraint, citing
/// the witness, where it is not; this as far as the product of the
/// distances of the witness from the values of the range stays below the
/// order of the field.
pub proof fn lemma_run<const RANGE: usize>(
    circuit: MyCircuit<RANGE>,
    public_input: Seq<FieldElement>,
    r: Result<ProverView, SynthesisError>,
    check: Seq<FieldElement>,
)
    requires
        run_outcome(circuit, public_input, r),
    ensures
        circuit.value is None ==> r == Err::<ProverView, SynthesisError>(
            SynthesisError::UnassignedCell {
                column: Column { kind: ColumnKind::Advice, index: 0 },
                row: 0,
                rotation: 0,
            },
        ),
        circuit.value is Some ==> r is Ok,
        circuit.value is Some && circuit.value.unwrap()@ < RANGE ==> report(
            r.unwrap().system,
            r.unwrap().table,
            check,
        ) == Seq::<FailureView>::empty(),
        circuit.value is Some && circuit.value.unwrap()@ >= RANGE && distances(
            circuit.value.unwrap()@,
            RANGE as nat,
        ) < modulus() ==> report(r.unwrap().system, r.unwrap().table, check).len() == 1
            && out_of_range(
            report(r.unwrap().system, r.unwrap().table, check)[0],
            RANGE as nat,
            circuit.value.unwrap(),
        ),
{
    let (sys, config, layout, filled) = choose|
        sys: SystemView,
        config: Result<RangeCheckConfig<RANGE>, ConfigurationError>,
        layout: LayoutView,
        filled: Result<(), SynthesisError>,
    |
        MyCircuit::<RANGE>::configured(empty_system(), sys, config) && #[trigger] run_ends(
            circuit,
            public_input,
            sys,
            config,
            layout,
            filled,
            r,
        );
    let columns = config.unwrap();
    let start = empty_layout(sys.equality, public_input);
    let cell = Cell { column: columns.value, row: 0 };
    assert(columns.value == Column { kind: ColumnKind::Advice, index: 0 });
    assert(columns.q_range_check == Column { kind: ColumnKind::Selector, index: 0 });
    assert(cursor(start.regions) == 0);
    if circuit.value is Some {
        let x = circuit.value.unwrap();
        let frozen = SystemView { frozen: true, ..sys };
        let slots = layout.slots;
        let t = resolved_table(layout);
        assert(slots =~= seq![Slot { cell, value: Some(x), group: 0 }]);
        assert(untied(slots));
        lemma_untied_consistent(slots);
        assert(has_value(slots, 0)) by {
            assert(slots[0].group == 0 && slots[0].value is Some);
        }
        assert(all_valued(slots));
        lemma_all_resolved(slots, slots.len() as int);
        lemma_resolves_to_assigned(slots, cell, cell);
        lemma_stored_resolved(slots, cell, slots.len() as int);
        assert(sys.gates.len() == 1);
        let gate = sys.gates[0];
        assert(gate == sys.gates.last());
        let queried = Expression::ColumnQuery(columns.value, 0);
        assert(layout.regions.last().start + layout.regions.last().rows == 1);
        assert(t.rows == 1);
        assert forall|any: Seq<FieldElement>| cell_state_at(t, any, columns.value, 0)
            == CellState::Known(x) by {}
        assert(row_answered(frozen, t, public_input, 0)) by {
            assert forall|q: Query| #[trigger]
                reads(gate.constraints@[0].expression, q) implies answered(
                q,
                t,
                public_input,
                0,
            ) by {
                lemma_range_product_reads(RANGE as nat, queried, q);
            }
            assert(gate_answered(gate, t, public_input, 0));
        }
        assert forall|row: int| 0 <= row < 1 implies #[trigger] row_answered(
            frozen,
            t,
            public_input,
            row,
        ) by {}
        lemma_rows_complete(frozen, t, public_input, 1);
        assert(resolution_error(layout, frozen) is None);
        if x@ < RANGE || distances(x@, RANGE as nat) < modulus() {
            lemma_with_selector(start.selectors, Cell { column: columns.q_range_check, row: 0 });
            assert(enabled(t, columns.q_range_check, 0));
            lemma_range_check_reports(
                0,
                gate,
                columns.q_range_check,
                columns.value,
                RANGE as nat,
                t,
                check,
                0,
                x@,
            );
            lemma_lookup_report_empty(sys.lookups, t, check, 1);
            reveal_with_fuel(constraint_report, 2);
            reveal_with_fuel(row_report, 2);
            let all = report(frozen, t, check);
            assert(all =~= gate_report(0, gate, 1, t, check, 0));
            if x@ >= RANGE {
                lemma_range_product_queries(RANGE as nat, columns.value, Seq::empty());
                assert(layout.regions.len() == 1);
                reveal_with_fuel(region_of, 2);
                let record = constraint_failure(0, gate, 0, t, check, 0);
                assert(all[0] == record);
                assert(readings(queries(gate.constraints@[0].expression), t, check, 0) =~= if RANGE
                    == 0 {
                    Seq::<CellReading>::empty()
                } else {
                    seq![
                        CellReading {
                            column: columns.value,
                            rotation: 0,
                            value: CellState::Known(x),
                        },
                    ]
                });
            }
        }
    }
}

/// The range product of `value` over `0..range`.
pub fn range_check_expression(range: usize, value: &Expression) -> (r: Expression)
    ensures
        r == range_product(range as nat, *value),
{
    let mut expr = Expression::constant(FieldElement::one());
    let mut i: usize = 0;
    while i < range
        invariant
            0 <= i <= range,
            expr == range_product(i as nat, *value),
        decreases range - i,
    {
        let term = Expression::difference(
            Expression::constant(FieldElement::from_u64(i as u64)),
            value.duplicate(),
        );
        expr = Expression::product(expr, term);
        i += 1;
    }
    expr
}

/// Whether `gate` is the range check over `0..range` of the cell of
/// `value` at the row of `selector`.
pub open spec fn is_range_check_gate(
    gate: Gate,
    selector: Column,
    value: Column,
    range: nat,
) -> bool {
    &&& gate.name@ == "range check"@
    &&& gate.selector == selector
    &&& gate.constraints@.len() == 1
    &&& gate.constraints@[0].name@ == "range check"@
    &&& gate.constraints@[0].expression == range_product(
        range,
        Expression::ColumnQuery(value, 0),
    )
}

/// What placing one value in a new region that starts at `row` comes to:
/// refused where a column has the wrong kind, where the table has no row
/// left, and where the value is absent.
pub open spec fn assign_result(
    selector: Column,
    column: Column,
    row: int,
    value: Option<FieldElement>,
) -> Result<
    (),
    SynthesisError,
> {
    if selector.kind != ColumnKind::Selector || column.kind != ColumnKind::Advice {
        Err(SynthesisError::Configuration(ConfigurationError::WrongColumnKind))
    } else if row >= usize::MAX {
        Err(SynthesisError::Assignment(AssignmentError::RegionOverlap))
    } else if value is None {
        Err(SynthesisError::UnassignedCell { column, row: row as usize, rotation: 0 })
    } else {
        Ok(())
    }
}

/// Whether `after` is `before` with one more region, named `name`, of one
/// row, on which `selector` is enabled and the cell of `column` holds
/// `value`.
pub open spec fn one_row_added(
    before: LayoutView,
    after: LayoutView,
    name: Seq<char>,
    selector: Column,
    column: Column,
    value: Option<FieldElement>,
) -> bool {
    let row = cursor(before.regions) as usize;
    &&& row_added(before, after, name, selector)
    &&& after.slots == with_value(before.slots, Cell { column, row }, value)
}

/// Opens a region named `name`, enables `selector` on its first row and
/// assigns `value` to the cell of `column` there.
pub fn assign_one_row(
    layouter: &mut Layouter,
    name: &str,
    selector: Column,
    column: Column,
    value: Option<FieldElement>,
) -> (r: Result<(), SynthesisError>)
    requires
        old(layouter)@.wf(),
    ensures
        final(layouter)@.wf(),
        r == assign_result(
            selector,
            column,
            cursor(old(layouter)@.regions),
            value,
        ),
        r is Ok ==> one_row_added(
            old(layouter)@,
            final(layouter)@,
            name@,
            selector,
            column,
            value,
        ),
{
    if !matches!(selector.kind, ColumnKind::Selector) || !matches!(column.kind, ColumnKind::Advice) {
        return Err(SynthesisError::Configuration(ConfigurationError::WrongColumnKind));
    }
    let ghost before = layouter@;
    proof {
        lemma_fresh_row(before, Cell { column, row: cursor(before.regions) as usize });
    }
    let region = layouter.region(String::from_str(name));
    match layouter.enable_selector(region, selector, 0) {
        Ok(()) => {},
        Err(e) => {
            return Err(e);
        },
    }
    match layouter.assign_advice(region, column, 0, value) {
        Ok(_) => {
            proof {
                assert(layouter@.regions.drop_last() =~= before.regions);
            }
            Ok(())
        },
        Err(e) => Err(e),
    }
}

impl<const RANGE: usize> RangeCheckConfig<RANGE> {
    /// Allocates the selector and registers a gate that checks the cell
    /// of `value` at the current row against `0..RANGE`. Refused on a
    /// frozen system, and where `value` is a selector column.
    pub fn configure(meta: &mut ConstraintSystem, value: Column) -> (r: Result<
        Self,
        ConfigurationError,
    >)
        ensures
            match r {
                Ok(config) => {
                    &&& !old(meta)@.frozen
                    &&& value.kind != ColumnKind::Selector
                    &&& config.value == value
                    &&& config.q_range_check == (Column {
                        kind: ColumnKind::Selector,
                        index: count_of_kind(
                            old(meta)@.columns,
                            ColumnKind::Selector,
                            old(meta)@.columns.len(),
                        ) as usize,
                    })
                    &&& final(meta)@.columns == old(meta)@.columns.push(config.q_range_check)
                    &&& final(meta)@.gates.len() == old(meta)@.gates.len() + 1
                    &&& final(meta)@.gates.drop_last() == old(meta)@.gates
                    &&& is_range_check_gate(
                        final(meta)@.gates.last(),
                        config.q_range_check,
                        value,
                        RANGE as nat,
                    )
                    &&& final(meta)@.equality == old(meta)@.equality
                    &&& final(meta)@.lookups == old(meta)@.lookups
                    &&& !final(meta)@.frozen
                },
                Err(e) => {
                    &&& final(meta)@ == old(meta)@
                    &&& e == if old(meta)@.frozen {
                        ConfigurationError::Frozen
                    } else {
                        ConfigurationError::WrongColumnKind
                    }
                    &&& old(meta)@.frozen || value.kind == ColumnKind::Selector
                },
            },
    {
        if meta.is_frozen() {
            return Err(ConfigurationError::Frozen);
        }
        if matches!(value.kind, ColumnKind::Selector) {
            return Err(ConfigurationError::WrongColumnKind);
        }
        let ghost before = meta@;
        let q_range_check = match meta.allocate_column(ColumnKind::Selector) {
            Ok(column) => column,
            Err(e) => {
                return Err(e);
            },
        };
        let queried = Expression::query(value, 0);
        let expression = range_check_expression(RANGE, &queried);
        proof {
            lemma_range_product_well_kinded(RANGE as nat, queried);
        }
        let mut constraints: Vec<Constraint> = Vec::new();
        constraints.push(Constraint { name: String::from_str("range check"), expression });
        let created = meta.create_gate(String::from_str("range check"), q_range_check, constraints);
        proof {
            assert(created is Ok);
            assert(meta@.gates.drop_last() =~= before.gates);
        }
        Ok(RangeCheckConfig { value, q_range_check })
    }

    /// Places `value` in a region of its own, named "Assign value", and
    /// enables the range check on it.
    pub fn assign(&self, layouter: &mut Layouter, value: Option<FieldElement>) -> (r: Result<
        (),
        SynthesisError,
    >)
        requires
            old(layouter)@.wf(),
        ensures
            final(layouter)@.wf(),
            r == assign_result(
                self.q_range_check,
                self.value,
                cursor(old(layouter)@.regions),
                value,
            ),
            r is Ok ==> one_row_added(
                old(layouter)@,
                final(layouter)@,
                "Assign value"@,
                self.q_range_check,
                self.value,
                value,
            ),
    {
        assign_one_row(layouter, "Assign value", self.q_range_check, self.value, value)
    }
}

/// A circuit that range-checks one value.
#[derive(Clone, Copy, Debug, PartialEq, Eq)]
pub struct MyCircuit<const RANGE: usize> {
    pub value: Option<FieldElement>,
}

impl<const RANGE: usize> Circuit for MyCircuit<RANGE> {
    type Config = RangeCheckConfig<RANGE>;

    /// What `configure` does.
    open spec fn configured(
        before: SystemView,
        after: SystemView,
        r: Result<Self::Config, ConfigurationError>,
    ) -> bool {
        match r {
            Ok(config) => {
                &&& !before.frozen
                &&& config.value == (Column {
                    kind: ColumnKind::Advice,
                    index: count_of_kind(
                        before.columns,
                        ColumnKind::Advice,
                        before.columns.len(),
                    ) as usize,
                })
                &&& config.q_range_check == (Column {
                    kind: ColumnKind::Selector,
                    index: count_of_kind(
                        before.columns,
                        ColumnKind::Selector,
                        before.columns.len(),
                    ) as usize,
                })
                &&& after.columns == before.columns.push(config.value).push(
                    config.q_range_check,
                )
                &&& after.gates.len() == before.gates.len() + 1
                &&& after.gates.drop_last() == before.gates
                &&& is_range_check_gate(
                    after.gates.last(),
                    config.q_range_check,
                    config.value,
                    RANGE as nat,
                )
                &&& after.equality == before.equality
                &&& after.lookups == before.lookups
                &&& !after.frozen
            },
            Err(e) => before.frozen && e == ConfigurationError::Frozen && after
                == before,
        }
    }

    /// What `synthesize` does.
    open spec fn synthesized(
        &self,
        config: Self::Config,
        before: LayoutView,
        after: LayoutView,
        r: Result<(), SynthesisError>,
    ) -> bool {
        &&& r == assign_result(
            config.q_range_check,
            config.value,
            cursor(before.regions),
            self.value,
        )
        &&& r is Ok ==> one_row_added(
            before,
            after,
            "Assign value"@,
            config.q_range_check,
            config.value,
            self.value,
        )
    }

    /// The same circuit with no witness.
    fn without_witnesses(&self) -> (r: Self)
        ensures
            r.value is None,
    {
        MyCircuit { value: None }
    }

    /// Allocates the advice column of the value and configures the range
    /// check on it.
    fn configure(meta: &mut ConstraintSystem) -> (r: Result<Self::Config, ConfigurationError>) {
        let ghost before = meta@;
        let value = match meta.allocate_column(ColumnKind::Advice) {
            Ok(column) => column,
            Err(e) => {
                return Err(e);
            },
        };
        proof {
            lemma_count_other_kind(before.columns, value, ColumnKind::Selector);
        }
        RangeCheckConfig::configure(meta, value)
    }

    /// Fills the table: the value goes into a region of its own, with the
    /// range check enabled on it.
    fn synthesize(
        &self,
        config: Self::Config,
        layouter: &mut Layouter,
    ) -> (r: Result<(), SynthesisError>) {
        config.assign(layouter, self.value)
    }
}

} // verus!
