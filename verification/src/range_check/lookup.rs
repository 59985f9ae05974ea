//! The range check by gate or by lookup: small ranges go through a gate,
//! large ones through a table of the values of the range.
//!
//! ```text
//!   value | q_range_check | q_lookup | table_value
//!  -------+---------------+----------+-------------
//!     v   |       1       |    0     |      0
//!     v'  |       0       |    1     |      1
//! ```

use crate::column::{Cell, Column, ColumnKind, Query};
use crate::diagnosis::lemma_constraint_report_empty;
use crate::expression::{reads, well_kinded, Expression};
use crate::field::{lemma_element, lemma_element_below, lemma_product_one, modulus, FieldElement};
use crate::layout::{
    cursor, empty_layout, lemma_position, lemma_position_unique, lemma_with_selector, table_slots,
    with_selector, with_value, AssignmentError, CellState, LayoutView, Slot, SynthesisError,
};
use crate::layouter::Layouter;
use crate::prover::{run_ends, run_outcome, Circuit, ProverView};
use crate::range_check::gate::{
    assign_one_row, assign_result, is_range_check_gate, lemma_range_product_well_kinded,
    one_row_added, range_check_expression,
};
use crate::range_check::table::{
    has_row, holds_range, lemma_membership, range_cells, RangeCheckTable,
};
use crate::resolution::{
    first_unloaded, first_unresolved, has_value, lemma_all_resolved, lemma_resolves_to_assigned,
    lemma_stored_resolved, lemma_untied_consistent, resolution_error, resolved_table, untied,
};
use crate::system::{
    count_of_kind, empty_system, lemma_count_other_kind, lemma_count_same_kind, ConfigurationError,
    Constraint, ConstraintSystem, Lookup, SystemView,
};
use crate::verification::{
    constraint_violated, locate, lookup_failure, lookup_report, lookup_row_report, lookup_violated,
    region_of, report, FailureLocation, FailureView,
};
use crate::witness::{
    answered, cell_state_at, enabled, eval, gated_on, lemma_rows_complete, row_answered, CellValue,
    TableView,
};
use vstd::prelude::*;
use vstd::string::StringExecFns;

verus! {

/// The columns of a range check by gate or by lookup.
#[derive(Clone, Copy, Debug, PartialEq, Eq)]
pub struct RangeCheckConfig<const RANGE: usize, const LOOKUP_RANGE: usize> {
    pub value: Column,
    pub q_range_check: Column,
    pub q_lookup: Column,
    pub table: RangeCheckTable<LOOKUP_RANGE>,
}

/// The input of the lookup: the cell of `value`, gated by `selector`.
pub open spec fn lookup_input(selector: Column, value: Column) -> Expression {
    Expression::Product(
        Box::new(Expression::Selector(selector)),
        Box::new(Expression::ColumnQuery(value, 0)),
    )
}

/// The `n`-th column of kind `kind` to be allocated after `columns`.
pub open spec fn next_column(columns: Seq<Column>, kind: ColumnKind, n: nat) -> Column {
    Column { kind, index: (count_of_kind(columns, kind, columns.len()) + n) as usize }
}

/// Whether `after` is `before` with the columns, the range-check gate and the lookup
/// of `config` registered on it.
pub open spec fn configured<const RANGE: usize, const LOOKUP_RANGE: usize>(
    before: SystemView,
    after: SystemView,
    config: RangeCheckConfig<RANGE, LOOKUP_RANGE>,
) -> bool {
    &&& config.q_range_check == next_column(before.columns, ColumnKind::Selector, 0)
    &&& config.q_lookup == next_column(before.columns, ColumnKind::Selector, 1)
    &&& config.table.value == next_column(before.columns, ColumnKind::Fixed, 0)
    &&& after.columns == before.columns.push(config.q_range_check).push(config.q_lookup).push(
        config.table.value,
    )
    &&& after.gates.len() == before.gates.len() + 1
    &&& after.gates.drop_last() == before.gates
    &&& is_range_check_gate(after.gates.last(), config.q_range_check, config.value, RANGE as nat)
    &&& after.lookups == before.lookups.push(
        Lookup { input: lookup_input(config.q_lookup, config.value), table: config.table.value },
    )
    &&& after.equality == before.equality
    &&& !after.frozen
}

/// Whether `after` is `before` with the table loaded and two more regions
/// of one row each: the first holds `value`, checked against `RANGE`, the
/// second `large_value`, checked against `LOOKUP_RANGE`.
pub open spec fn two_rows_added<const RANGE: usize, const LOOKUP_RANGE: usize>(
    before: LayoutView,
    after: LayoutView,
    config: RangeCheckConfig<RANGE, LOOKUP_RANGE>,
    value: Option<FieldElement>,
    large_value: Option<FieldElement>,
) -> bool {
    let row = cursor(before.regions) as usize;
    let next = (row + 1) as usize;
    let n = before.regions.len() as int;
    let loaded = table_slots(
        before.slots,
        config.table.value,
        range_cells(LOOKUP_RANGE as nat),
        LOOKUP_RANGE as int,
    );
    &&& after.regions.len() == n + 2
    &&& after.regions.take(n) == before.regions
    &&& after.regions[n].name@ == RangeCheckConfig::<RANGE, LOOKUP_RANGE>::region_name(RANGE)
    &&& after.regions[n].start == row
    &&& after.regions[n].rows == 1
    &&& after.regions[n + 1].name@ == RangeCheckConfig::<RANGE, LOOKUP_RANGE>::region_name(
        LOOKUP_RANGE,
    )
    &&& after.regions[n + 1].start == next
    &&& after.regions[n + 1].rows == 1
    &&& after.slots == with_value(
        with_value(loaded, Cell { column: config.value, row }, value),
        Cell { column: config.value, row: next },
        large_value,
    )
    &&& after.selectors == with_selector(
        with_selector(before.selectors, Cell { column: config.selector_for(RANGE), row }),
        Cell { column: config.selector_for(LOOKUP_RANGE), row: next },
    )
    &&& after.tables == before.tables.push(config.table.value)
    &&& after.bindings == before.bindings
    &&& after.equality == before.equality
    &&& after.public_input == before.public_input
}

/// What the synthesis of the two values comes to: the table is loaded,
/// then each value takes a region of its own.
pub open spec fn synthesis_result<const RANGE: usize, const LOOKUP_RANGE: usize>(
    config: RangeCheckConfig<RANGE, LOOKUP_RANGE>,
    layout: LayoutView,
    value: Option<FieldElement>,
    large_value: Option<FieldElement>,
) -> Result<(), SynthesisError> {
    let row = cursor(layout.regions);
    let first = assign_result(config.selector_for(RANGE), config.value, row, value);
    let second = assign_result(
        config.selector_for(LOOKUP_RANGE),
        config.value,
        row + 1,
        large_value,
    );
    if config.table.value.kind != ColumnKind::Fixed {
        Err(SynthesisError::Configuration(ConfigurationError::WrongColumnKind))
    } else if layout.tables.contains(config.table.value) {
        Err(SynthesisError::Assignment(AssignmentError::CellAlreadyAssigned))
    } else if first is Err {
        first
    } else {
        second
    }
}

/// The lookup of the range check fails exactly on the values that are not
/// below the range of its table: on a row where its selector is enabled
/// and the checked cell holds `v`, against a table column that holds
/// `0..range`, the lookup is violated where `v >= range` and only there.
pub proof fn lemma_lookup_fails_from_range(
    lookup: Lookup,
    selector: Column,
    value: Column,
    range: nat,
    t: TableView,
    public: Seq<FieldElement>,
    row: int,
    v: nat,
)
    requires
        lookup.input == lookup_input(selector, value),
        enabled(t, selector, row),
        cell_state_at(t, public, value, row)@ == CellValue::Known(v),
        v < modulus(),
        holds_range(t.cells, lookup.table, range),
        range <= usize::MAX,
    ensures
        lookup_violated(lookup, t, public, row) <==> v >= range,
        lookup_violated(lookup, t, public, row) ==> lookup_failure(0, lookup, t, public, row)
            == (FailureView::LookupFailure {
            lookup: 0,
            location: locate(t.regions, row),
            value: CellValue::Known(v),
        }),
{
    reveal_with_fuel(eval, 2);
    reveal_with_fuel(gated_on, 2);
    lemma_product_one(v);
    assert(eval(lookup.input, t, public, row) == CellValue::Known(v));
    lemma_membership(t.cells, lookup.table, range, v);
}

/// The record of a value that the lookup rejects on `row`; nothing for a
/// value of the range.
pub open spec fn rejected(v: nat, range: nat, t: TableView, row: int) -> Seq<FailureView> {
    if v < range {
        Seq::empty()
    } else {
        seq![
            FailureView::LookupFailure {
                lookup: 0,
                location: locate(t.regions, row),
                value: CellValue::Known(v),
            },
        ]
    }
}

/// What the layout of a run resolves to: every touched cell holds its own
/// value, the table column holds its range, and the two values stand on
/// rows 0 and 1, each in a region of its own.
pub proof fn lemma_resolved_layout<const RANGE: usize, const LOOKUP_RANGE: usize>(
    start: LayoutView,
    layout: LayoutView,
    config: RangeCheckConfig<RANGE, LOOKUP_RANGE>,
    v1: FieldElement,
    v2: FieldElement,
)
    requires
        start == empty_layout(start.equality, start.public_input),
        layout.wf(),
        two_rows_added(start, layout, config, Some(v1), Some(v2)),
        config.value.kind == ColumnKind::Advice,
        config.table.value.kind == ColumnKind::Fixed,
    ensures
        first_unresolved(layout.slots, layout.slots.len() as int) < 0,
        resolved_table(layout).rows == 2,
        holds_range(resolved_table(layout).cells, config.table.value, LOOKUP_RANGE as nat),
        forall|any: Seq<FieldElement>|
            cell_state_at(resolved_table(layout), any, config.value, 0) == CellState::Known(v1),
        forall|any: Seq<FieldElement>|
            cell_state_at(resolved_table(layout), any, config.value, 1) == CellState::Known(v2),
        locate(resolved_table(layout).regions, 0) matches FailureLocation::InRegion {
            region,
            name,
            offset,
        } && region == 0 && offset == 0 && name@ == RangeCheckConfig::<
            RANGE,
            LOOKUP_RANGE,
        >::region_name(RANGE),
        locate(resolved_table(layout).regions, 1) matches FailureLocation::InRegion {
            region,
            name,
            offset,
        } && region == 1 && offset == 0 && name@ == RangeCheckConfig::<
            RANGE,
            LOOKUP_RANGE,
        >::region_name(LOOKUP_RANGE),
{
    let range = LOOKUP_RANGE as int;
    let column = config.table.value;
    let loaded = table_slots(start.slots, column, range_cells(LOOKUP_RANGE as nat), range);
    let c0 = Cell { column: config.value, row: 0 };
    let c1 = Cell { column: config.value, row: 1 };
    let slots = layout.slots;
    let t = resolved_table(layout);
    lemma_position(loaded, c0);
    let with_first = with_value(loaded, c0, Some(v1));
    lemma_position(with_first, c1);
    assert(with_first =~= loaded.push(Slot { cell: c0, value: Some(v1), group: range as usize }));
    assert(slots =~= with_first.push(
        Slot { cell: c1, value: Some(v2), group: (range + 1) as usize },
    ));
    assert(untied(slots));
    lemma_untied_consistent(slots);
    assert forall|i: int| 0 <= i < slots.len() implies has_value(
        slots,
        (#[trigger] slots[i]).group,
    ) by {
        assert(slots[i].group == slots[i].group && slots[i].value is Some);
    }
    lemma_all_resolved(slots, slots.len() as int);
    assert forall|k: int| 0 <= k < slots.len() implies (#[trigger] t.cells[k]).cell
        == slots[k].cell && Some(t.cells[k].value) == slots[k].value by {
        lemma_position_unique(slots, slots[k].cell, k);
        lemma_resolves_to_assigned(slots, slots[k].cell, slots[k].cell);
    }
    assert forall|i: nat| i < LOOKUP_RANGE implies #[trigger] has_row(t.cells, column, i) by {
        assert(t.cells[i as int].cell == Cell { column, row: i as usize });
    }
    assert forall|k: int|
        0 <= k < t.cells.len() && (#[trigger] t.cells[k]).cell.column
            == column implies t.cells[k].cell.row < LOOKUP_RANGE && t.cells[k].value@
        == t.cells[k].cell.row by {
        lemma_element(k as nat);
    }
    lemma_stored_resolved(slots, c0, slots.len() as int);
    lemma_stored_resolved(slots, c1, slots.len() as int);
    lemma_position_unique(slots, c0, range);
    lemma_position_unique(slots, c1, range + 1);
    lemma_resolves_to_assigned(slots, c0, c0);
    lemma_resolves_to_assigned(slots, c1, c1);
    assert forall|any: Seq<FieldElement>| cell_state_at(t, any, config.value, 0)
        == CellState::Known(v1) by {}
    assert forall|any: Seq<FieldElement>| cell_state_at(t, any, config.value, 1)
        == CellState::Known(v2) by {}
    let regions = layout.regions;
    assert(regions.len() == 2);
    assert(regions.drop_last().len() == 1);
    assert(regions.drop_last().drop_last().len() == 0);
    assert(regions.drop_last().last() == regions[0]);
    reveal_with_fuel(region_of, 3);
}

/// What a run of the circuit comes to, where the polynomial is for the
/// smaller range. Without a witness it ends in synthesis, on the first
/// cell that has no value. With both it succeeds, and verification
/// against any public input reports each of the two values that is not
/// below `LOOKUP_RANGE`, as a failed lookup on its row, and nothing else.
pub proof fn lemma_run<const RANGE: usize, const LOOKUP_RANGE: usize>(
    circuit: MyCircuit<RANGE, LOOKUP_RANGE>,
    public_input: Seq<FieldElement>,
    r: Result<ProverView, SynthesisError>,
    check: Seq<FieldElement>,
)
    requires
        run_outcome(circuit, public_input, r),
        RANGE <= LOOKUP_RANGE,
        circuit.value is Some ==> circuit.value.unwrap().canonical(),
        circuit.large_value is Some ==> circuit.large_value.unwrap().canonical(),
    ensures
        circuit.value is None ==> r == Err::<ProverView, SynthesisError>(
            SynthesisError::UnassignedCell {
                column: Column { kind: ColumnKind::Advice, index: 0 },
                row: 0,
                rotation: 0,
            },
        ),
        circuit.value is Some && circuit.large_value is None ==> r == Err::<
            ProverView,
            SynthesisError,
        >(
            SynthesisError::UnassignedCell {
                column: Column { kind: ColumnKind::Advice, index: 0 },
                row: 1,
                rotation: 0,
            },
        ),
        circuit.value is Some && circuit.large_value is Some ==> r is Ok && report(
            r.unwrap().system,
            r.unwrap().table,
            check,
        ) == rejected(circuit.value.unwrap()@, LOOKUP_RANGE as nat, r.unwrap().table, 0) + rejected(
            circuit.large_value.unwrap()@,
            LOOKUP_RANGE as nat,
            r.unwrap().table,
            1,
        ),
{
    let (sys, config, layout, filled) = choose|
        sys: SystemView,
        config: Result<RangeCheckConfig<RANGE, LOOKUP_RANGE>, ConfigurationError>,
        layout: LayoutView,
        filled: Result<(), SynthesisError>,
    |
        MyCircuit::<RANGE, LOOKUP_RANGE>::configured(empty_system(), sys, config)
            && #[trigger] run_ends(circuit, public_input, sys, config, layout, filled, r);
    let columns = config.unwrap();
    let start = empty_layout(sys.equality, public_input);
    let value = Column { kind: ColumnKind::Advice, index: 0 };
    assert(columns.value == value);
    reveal_with_fuel(count_of_kind, 2);
    assert(columns.q_range_check == Column { kind: ColumnKind::Selector, index: 0 });
    assert(columns.q_lookup == Column { kind: ColumnKind::Selector, index: 1 });
    assert(columns.table.value == Column { kind: ColumnKind::Fixed, index: 0 });
    assert(cursor(start.regions) == 0);
    assert(columns.selector_for(RANGE) == columns.q_lookup);
    assert(columns.selector_for(LOOKUP_RANGE) == columns.q_lookup);
    if circuit.value is Some && circuit.large_value is Some {
        let v1 = circuit.value.unwrap();
        let v2 = circuit.large_value.unwrap();
        let frozen = SystemView { frozen: true, ..sys };
        let t = resolved_table(layout);
        lemma_resolved_layout(start, layout, columns, v1, v2);
        assert(sys.gates.len() == 1);
        assert(sys.lookups.len() == 1);
        let gate = sys.gates[0];
        let lookup = sys.lookups[0];
        assert(gate == sys.gates.last());
        assert(lookup.input == lookup_input(columns.q_lookup, columns.value));
        assert(lookup.table == columns.table.value);
        let first = Cell { column: columns.q_lookup, row: 0 };
        let second = Cell { column: columns.q_lookup, row: 1 };
        lemma_with_selector(start.selectors, first);
        lemma_with_selector(with_selector(start.selectors, first), second);
        assert forall|any: int| !enabled(t, gate.selector, any) by {
            if 0 <= any <= usize::MAX {
                let c = Cell { column: gate.selector, row: any as usize };
                if t.selectors.contains(c) {
                    assert(with_selector(start.selectors, first).contains(c) || c == second);
                }
            }
        }
        assert(enabled(t, columns.q_lookup, 0));
        assert(enabled(t, columns.q_lookup, 1));
        assert(first_unloaded(sys.lookups, layout.tables, 1) < 0) by {
            reveal_with_fuel(first_unloaded, 2);
            assert(layout.tables[0] == columns.table.value);
            assert(layout.tables.contains(lookup.table));
        }
        assert forall|row: int| 0 <= row < 2 implies #[trigger] row_answered(
            frozen,
            t,
            public_input,
            row,
        ) by {
            assert forall|q: Query| #[trigger] reads(lookup.input, q) implies answered(
                q,
                t,
                public_input,
                row,
            ) by {
                reveal_with_fuel(reads, 2);
            }
        }
        lemma_rows_complete(frozen, t, public_input, 2);
        assert(resolution_error(layout, frozen) is None);
        assert forall|row: int, g: int, c: int|
            0 <= row < 2 && 0 <= g < sys.gates.len() && 0 <= c < sys.gates[g].constraints@.len()
            implies !#[trigger] constraint_violated(sys.gates[g], c, t, check, row) by {}
        lemma_constraint_report_empty(sys.gates, t, check, 2);
        lemma_element_below(v1);
        lemma_element_below(v2);
        lemma_lookup_fails_from_range(
            lookup,
            columns.q_lookup,
            columns.value,
            LOOKUP_RANGE as nat,
            t,
            check,
            0,
            v1@,
        );
        lemma_lookup_fails_from_range(
            lookup,
            columns.q_lookup,
            columns.value,
            LOOKUP_RANGE as nat,
            t,
            check,
            1,
            v2@,
        );
        reveal_with_fuel(lookup_report, 3);
        reveal_with_fuel(lookup_row_report, 2);
        assert(report(frozen, t, check) =~= rejected(v1@, LOOKUP_RANGE as nat, t, 0) + rejected(
            v2@,
            LOOKUP_RANGE as nat,
            t,
            1,
        ));
    }
}

impl<const RANGE: usize, const LOOKUP_RANGE: usize> RangeCheckConfig<RANGE, LOOKUP_RANGE> {
    /// The selector that checks a value against `range`: that of the range-check gate for a
    /// range below `RANGE`, the lookup otherwise.
    pub open spec fn selector_for(self, range: usize) -> Column {
        if range < RANGE {
            self.q_range_check
        } else {
            self.q_lookup
        }
    }

    /// The name of the region of a value checked against `range`.
    pub open spec fn region_name(range: usize) -> Seq<char> {
        if range < RANGE {
            "Assign value"@
        } else {
            "Assign value for lookup range check"@
        }
    }

    /// Allocates the two selectors and the table column, and registers the
    /// range-check gate and the lookup of the cell of `value` in the
    /// table. Refused on a frozen system, and where `value` is a selector
    /// column.
    pub fn configure(meta: &mut ConstraintSystem, value: Column) -> (r: Result<
        Self,
        ConfigurationError,
    >)
        ensures
            match r {
                Ok(config) => {
                    &&& !old(meta)@.frozen
                    &&& value.kind != ColumnKind::Selector
                    &&& config.value == value
                    &&& configured(old(meta)@, final(meta)@, config)
                },
                Err(e) => {
                    &&& final(meta)@ == old(meta)@
                    &&& e == if old(meta)@.frozen {
                        ConfigurationError::Frozen
                    } else {
                        ConfigurationError::WrongColumnKind
                    }
                    &&& old(meta)@.frozen || value.kind == ColumnKind::Selector
                },
            },
    {
        if meta.is_frozen() {
            return Err(ConfigurationError::Frozen);
        }
        if matches!(value.kind, ColumnKind::Selector) {
            return Err(ConfigurationError::WrongColumnKind);
        }
        let ghost before = meta@;
        let q_range_check = match meta.allocate_column(ColumnKind::Selector) {
            Ok(column) => column,
            Err(e) => {
                return Err(e);
            },
        };
        let q_lookup = match meta.allocate_column(ColumnKind::Selector) {
            Ok(column) => column,
            Err(e) => {
                return Err(e);
            },
        };
        proof {
            lemma_count_same_kind(before.columns, q_range_check);
            lemma_count_other_kind(before.columns, q_range_check, ColumnKind::Fixed);
            lemma_count_other_kind(
                before.columns.push(q_range_check),
                q_lookup,
                ColumnKind::Fixed,
            );
            assert(before.columns.push(q_range_check).drop_last() == before.columns);
        }
        let table = match RangeCheckTable::<LOOKUP_RANGE>::configure(meta) {
            Ok(table) => table,
            Err(e) => {
                return Err(e);
            },
        };
        let queried = Expression::query(value, 0);
        let expression = range_check_expression(RANGE, &queried);
        proof {
            lemma_range_product_well_kinded(RANGE as nat, queried);
        }
        let mut constraints: Vec<Constraint> = Vec::new();
        constraints.push(Constraint { name: String::from_str("range check"), expression });
        let created = meta.create_gate(String::from_str("range check"), q_range_check, constraints);
        proof {
            assert(created is Ok);
            assert(meta@.gates.drop_last() =~= before.gates);
        }
        let input = Expression::product(Expression::selector(q_lookup), Expression::query(value, 0));
        let looked = meta.create_lookup(input, table.value);
        proof {
            reveal_with_fuel(well_kinded, 3);
            assert(looked is Ok);
        }
        Ok(RangeCheckConfig { value, q_range_check, q_lookup, table })
    }

    /// Places `value` in a region of its own and enables its check: the
    /// gate where `range` is below `RANGE`, the lookup otherwise.
    pub fn assign(&self, layouter: &mut Layouter, value: Option<FieldElement>, range: usize) -> (r:
        Result<(), SynthesisError>)
        requires
            old(layouter)@.wf(),
        ensures
            final(layouter)@.wf(),
            r == assign_result(
                self.selector_for(range),
                self.value,
                cursor(old(layouter)@.regions),
                value,
            ),
            r is Ok ==> one_row_added(
                old(layouter)@,
                final(layouter)@,
                Self::region_name(range),
                self.selector_for(range),
                self.value,
                value,
            ),
    {
        if range < RANGE {
            assign_one_row(layouter, "Assign value", self.q_range_check, self.value, value)
        } else {
            assign_one_row(
                layouter,
                "Assign value for lookup range check",
                self.q_lookup,
                self.value,
                value,
            )
        }
    }
}

/// A circuit that range-checks two values, one against `RANGE` and one
/// against `LOOKUP_RANGE`.
#[derive(Clone, Copy, Debug, PartialEq, Eq)]
pub struct MyCircuit<const RANGE: usize, const LOOKUP_RANGE: usize> {
    pub value: Option<FieldElement>,
    pub large_value: Option<FieldElement>,
}

impl<const RANGE: usize, const LOOKUP_RANGE: usize> Circuit for MyCircuit<RANGE, LOOKUP_RANGE> {
    type Config = RangeCheckConfig<RANGE, LOOKUP_RANGE>;

    /// What `configure` does.
    open spec fn configured(
        before: SystemView,
        after: SystemView,
        r: Result<Self::Config, ConfigurationError>,
    ) -> bool {
        match r {
            Ok(config) => {
                &&& !before.frozen
                &&& config.value == next_column(before.columns, ColumnKind::Advice, 0)
                &&& configured(
                    SystemView {
                        columns: before.columns.push(config.value),
                        ..before
                    },
                    after,
                    config,
                )
            },
            Err(e) => before.frozen && e == ConfigurationError::Frozen && after
                == before,
        }
    }

    /// What `synthesize` does.
    open spec fn synthesized(
        &self,
        config: Self::Config,
        before: LayoutView,
        after: LayoutView,
        r: Result<(), SynthesisError>,
    ) -> bool {
        &&& r == synthesis_result(config, before, self.value, self.large_value)
        &&& r is Ok ==> two_rows_added(before, after, config, self.value, self.large_value)
    }

    /// The same circuit with no witness.
    fn without_witnesses(&self) -> (r: Self)
        ensures
            r.value is None,
            r.large_value is None,
    {
        MyCircuit { value: None, large_value: None }
    }

    /// Allocates the advice column of the values and configures the range
    /// checks on it.
    fn configure(meta: &mut ConstraintSystem) -> (r: Result<Self::Config, ConfigurationError>) {
        let value = match meta.allocate_column(ColumnKind::Advice) {
            Ok(column) => column,
            Err(e) => {
                return Err(e);
            },
        };
        RangeCheckConfig::configure(meta, value)
    }

    /// Fills the table: the lookup table is loaded, then the value checked
    /// against `RANGE` and the value checked against `LOOKUP_RANGE` take a
    /// region each.
    fn synthesize(
        &self,
        config: Self::Config,
        layouter: &mut Layouter,
    ) -> (r: Result<(), SynthesisError>) {
        let ghost before = layouter@;
        match config.table.load(layouter) {
            Ok(()) => {},
            Err(e) => {
                return Err(e);
            },
        }
        match config.assign(layouter, self.value, RANGE) {
            Ok(()) => {},
            Err(e) => {
                return Err(e);
            },
        }
        let ghost first = layouter@;
        let r = config.assign(layouter, self.large_value, LOOKUP_RANGE);
        proof {
            if r is Ok {
                let n = before.regions.len() as int;
                let after = layouter@;
                assert(after.regions.drop_last() == first.regions);
                assert(first.regions.drop_last() == before.regions);
                assert(after.regions[n] == first.regions[n]);
                assert(after.regions.take(n) =~= before.regions) by {
                    assert forall|i: int| 0 <= i < n implies after.regions.take(n)[i]
                        == before.regions[i] by {
                        assert(after.regions.drop_last()[i] == after.regions[i]);
                        assert(first.regions.drop_last()[i] == first.regions[i]);
                    }
                }
            }
        }
        r
    }
}

} // verus!
