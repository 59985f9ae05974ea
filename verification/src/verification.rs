//! The constraint verifier: one pass over a frozen table that collects
//! every violated gate constraint, every failed lookup and every public
//! input that a bound cell does not match.

use crate::column::{Cell, Column, Query};
use crate::expression::queries;
use crate::field::FieldElement;
use crate::layout::{Binding, CellState, Region};
use crate::system::{ConstraintSystem, Gate, Lookup, SystemView};
use crate::witness::{
    cell_state_at, enabled, eval, gated_on, rotate, stored, AssignedCell, CellValue, TableView,
    WitnessTable,
};
use vstd::prelude::*;

verus! {

/// Where in the table a failure lies.
#[derive(Debug, PartialEq, Eq)]
pub enum FailureLocation {
    /// In a region, at a local offset.
    InRegion { region: usize, name: String, offset: usize },
    /// On a row that no region has claimed.
    OutsideRegion { row: usize },
}

/// A cell that a constraint read and what it held.
#[derive(Clone, Copy, Debug, PartialEq, Eq)]
pub struct CellReading {
    pub column: Column,
    pub rotation: i32,
    pub value: CellState,
}

/// One violation found by the verifier.
#[derive(Debug, PartialEq, Eq)]
pub enum VerifyFailure {
    /// A constraint of an active gate did not evaluate to zero.
    ConstraintNotSatisfied {
        gate: usize,
        gate_name: String,
        constraint: usize,
        constraint_name: String,
        location: FailureLocation,
        cell_values: Vec<CellReading>,
    },
    /// The input of an active lookup is not in its table.
    LookupFailure { lookup: usize, location: FailureLocation, value: CellState },
    /// A bound cell does not hold the public input of its row.
    PublicInputMismatch { binding: usize, cell: Cell, instance: Column, row: usize },
}

/// What a failure record says.
pub enum FailureView {
    ConstraintNotSatisfied {
        gate: usize,
        gate_name: String,
        constraint: usize,
        constraint_name: String,
        location: FailureLocation,
        cell_values: Seq<CellReading>,
    },
    LookupFailure { lookup: usize, location: FailureLocation, value: CellValue },
    PublicInputMismatch { binding: usize, cell: Cell, instance: Column, row: usize },
}

impl View for VerifyFailure {
    type V = FailureView;

    open spec fn view(&self) -> FailureView {
        match *self {
            VerifyFailure::ConstraintNotSatisfied {
                gate,
                gate_name,
                constraint,
                constraint_name,
                location,
                cell_values,
            } => FailureView::ConstraintNotSatisfied {
                gate,
                gate_name,
                constraint,
                constraint_name,
                location,
                cell_values: cell_values@,
            },
            VerifyFailure::LookupFailure { lookup, location, value } => FailureView::LookupFailure {
                lookup,
                location,
                value: value@,
            },
            VerifyFailure::PublicInputMismatch {
                binding,
                cell,
                instance,
                row,
            } => FailureView::PublicInputMismatch { binding, cell, instance, row },
        }
    }
}

/// What each record of a report says, in order.
pub open spec fn views(report: Seq<VerifyFailure>) -> Seq<FailureView> {
    Seq::new(report.len(), |i: int| report[i]@)
}

/// The index of the last region that holds `row`, or `-1`.
pub open spec fn region_of(regions: Seq<Region>, row: int) -> int
    decreases regions.len(),
{
    if regions.len() == 0 {
        -1
    } else if regions.last().start <= row < regions.last().start + regions.last().rows {
        regions.len() - 1
    } else {
        region_of(regions.drop_last(), row)
    }
}

/// The place of `row`: the region that holds it and the offset in it, or
/// the bare row.
pub open spec fn locate(regions: Seq<Region>, row: int) -> FailureLocation {
    let k = region_of(regions, row);
    if k >= 0 {
        FailureLocation::InRegion {
            region: k as usize,
            name: regions[k].name,
            offset: (row - regions[k].start) as usize,
        }
    } else {
        FailureLocation::OutsideRegion { row: row as usize }
    }
}

/// What the cells that `list` asks for hold, seen from `row`.
pub open spec fn readings(
    list: Seq<Query>,
    t: TableView,
    public: Seq<FieldElement>,
    row: int,
) -> Seq<
    CellReading,
> {
    Seq::new(
        list.len(),
        |i: int|
            CellReading {
                column: list[i].column,
                rotation: list[i].rotation,
                value: cell_state_at(t, public, list[i].column, row + list[i].rotation),
            },
    )
}

/// Whether constraint `c` of `gate` is violated at `row`: its selector is
/// enabled there and the constraint is not known to be zero.
pub open spec fn constraint_violated(
    gate: Gate,
    c: int,
    t: TableView,
    public: Seq<FieldElement>,
    row: int,
) -> bool {
    enabled(t, gate.selector, row) && eval(gate.constraints@[c].expression, t, public, row)
        != CellValue::Known(0)
}

/// The record of the violation of constraint `c` of gate `g` at `row`.
pub open spec fn constraint_failure(
    g: int,
    gate: Gate,
    c: int,
    t: TableView,
    public: Seq<FieldElement>,
    row: int,
) -> FailureView {
    FailureView::ConstraintNotSatisfied {
        gate: g as usize,
        gate_name: gate.name,
        constraint: c as usize,
        constraint_name: gate.constraints@[c].name,
        location: locate(t.regions, row),
        cell_values: readings(queries(gate.constraints@[c].expression), t, public, row),
    }
}

/// The violations among the first `n` constraints of gate `g` at `row`.
pub open spec fn gate_report(
    g: int,
    gate: Gate,
    n: int,
    t: TableView,
    public: Seq<FieldElement>,
    row: int,
) -> Seq<FailureView>
    decreases n,
{
    if n <= 0 {
        Seq::empty()
    } else {
        let earlier = gate_report(g, gate, n - 1, t, public, row);
        if constraint_violated(gate, n - 1, t, public, row) {
            earlier.push(constraint_failure(g, gate, n - 1, t, public, row))
        } else {
            earlier
        }
    }
}

/// The violations of the first `n` gates at `row`.
pub open spec fn row_report(
    gates: Seq<Gate>,
    n: int,
    t: TableView,
    public: Seq<FieldElement>,
    row: int,
) -> Seq<
    FailureView,
>
    decreases n,
{
    if n <= 0 {
        Seq::empty()
    } else {
        row_report(gates, n - 1, t, public, row) + gate_report(
            n - 1,
            gates[n - 1],
            gates[n - 1].constraints@.len() as int,
            t,
            public,
            row,
        )
    }
}

/// The violated constraints on the first `n` rows: by row, then by gate,
/// then by constraint.
pub open spec fn constraint_report(
    gates: Seq<Gate>,
    t: TableView,
    public: Seq<FieldElement>,
    n: int,
) -> Seq<
    FailureView,
>
    decreases n,
{
    if n <= 0 {
        Seq::empty()
    } else {
        constraint_report(gates, t, public, n - 1) + row_report(
            gates,
            gates.len() as int,
            t,
            public,
            n - 1,
        )
    }
}

/// Whether some cell of `column` holds the residue `x`.
pub open spec fn table_holds(cells: Seq<AssignedCell>, column: Column, x: nat) -> bool {
    exists|i: int|
        0 <= i < cells.len() && (#[trigger] cells[i]).cell.column == column && cells[i].value@ == x
}

/// Whether `lookup` fails at `row`: it is active there and its input is
/// not a value of its table.
pub open spec fn lookup_violated(
    lookup: Lookup,
    t: TableView,
    public: Seq<FieldElement>,
    row: int,
) -> bool {
    gated_on(lookup.input, t, row) && match eval(lookup.input, t, public, row) {
        CellValue::Known(x) => !table_holds(t.cells, lookup.table, x),
        _ => true,
    }
}

/// The record of the failure of lookup `l` at `row`.
pub open spec fn lookup_failure(
    l: int,
    lookup: Lookup,
    t: TableView,
    public: Seq<FieldElement>,
    row: int,
) -> FailureView {
    FailureView::LookupFailure {
        lookup: l as usize,
        location: locate(t.regions, row),
        value: eval(lookup.input, t, public, row),
    }
}

/// The failures of the first `n` lookups at `row`.
pub open spec fn lookup_row_report(
    lookups: Seq<Lookup>,
    n: int,
    t: TableView,
    public: Seq<FieldElement>,
    row: int,
) -> Seq<FailureView>
    decreases n,
{
    if n <= 0 {
        Seq::empty()
    } else {
        let earlier = lookup_row_report(lookups, n - 1, t, public, row);
        if lookup_violated(lookups[n - 1], t, public, row) {
            earlier.push(lookup_failure(n - 1, lookups[n - 1], t, public, row))
        } else {
            earlier
        }
    }
}

/// The failed lookups on the first `n` rows: by row, then by lookup.
pub open spec fn lookup_report(
    lookups: Seq<Lookup>,
    t: TableView,
    public: Seq<FieldElement>,
    n: int,
) -> Seq<
    FailureView,
>
    decreases n,
{
    if n <= 0 {
        Seq::empty()
    } else {
        lookup_report(lookups, t, public, n - 1) + lookup_row_report(
            lookups,
            lookups.len() as int,
            t,
            public,
            n - 1,
        )
    }
}

/// Whether the bound cell holds the public input of its row.
pub open spec fn binding_met(b: Binding, t: TableView, public: Seq<FieldElement>) -> bool {
    b.row < public.len() && match stored(t.cells, b.cell) {
        Some(v) => v@ == public[b.row as int]@,
        None => false,
    }
}

/// The record of binding `k`, where it is not met.
pub open spec fn binding_failure(k: int, b: Binding) -> FailureView {
    FailureView::PublicInputMismatch { binding: k as usize, cell: b.cell, instance: b.instance, row: b.row }
}

/// The mismatches among the first `n` bindings.
pub open spec fn binding_report(t: TableView, public: Seq<FieldElement>, n: int) -> Seq<FailureView>
    decreases n,
{
    if n <= 0 {
        Seq::empty()
    } else {
        let earlier = binding_report(t, public, n - 1);
        let b = t.bindings[n - 1];
        if binding_met(b, t, public) {
            earlier
        } else {
            earlier.push(binding_failure(n - 1, b))
        }
    }
}

/// The full report: the violated constraints, then the failed lookups,
/// then the public inputs that were not matched.
pub open spec fn report(
    sys: SystemView,
    t: TableView,
    public: Seq<FieldElement>,
) -> Seq<FailureView> {
    constraint_report(sys.gates, t, public, t.rows as int) + lookup_report(
        sys.lookups,
        t,
        public,
        t.rows as int,
    ) + binding_report(t, public, t.bindings.len() as int)
}

/// Verification is repeatable: two reports on the same system, table and
/// public input say the same, record for record.
pub proof fn lemma_verification_repeatable(
    first: Seq<VerifyFailure>,
    second: Seq<VerifyFailure>,
    sys: SystemView,
    t: TableView,
    public: Seq<FieldElement>,
)
    requires
        views(first) == report(sys, t, public),
        views(second) == report(sys, t, public),
    ensures
        views(first) == views(second),
        first.len() == second.len(),
        forall|i: int| 0 <= i < first.len() ==> first[i]@ == second[i]@,
{
    assert(views(first).len() == first.len());
    assert(views(second).len() == second.len());
    assert forall|i: int| 0 <= i < first.len() implies first[i]@ == second[i]@ by {
        assert(views(first)[i] == first[i]@);
        assert(views(second)[i] == second[i]@);
    }
}

/// A record appended to a report is its view appended to the views.
proof fn lemma_views_push(report: Seq<VerifyFailure>, f: VerifyFailure)
    ensures
        views(report.push(f)) == views(report).push(f@),
{
    assert(views(report.push(f)) =~= views(report).push(f@));
}

/// The place of `row` among `regions`.
fn locate_row(regions: &Vec<Region>, row: usize) -> (r: FailureLocation)
    ensures
        r == locate(regions@, row as int),
{
    let mut i: usize = regions.len();
    assert(regions@.take(i as int) == regions@);
    while i > 0
        invariant
            0 <= i <= regions.len(),
            region_of(regions@, row as int) == region_of(regions@.take(i as int), row as int),
        decreases i,
    {
        i -= 1;
        assert(regions@.take(i + 1).drop_last() == regions@.take(i as int));
        let start = regions[i].start;
        if start <= row && row - start < regions[i].rows {
            return FailureLocation::InRegion {
                region: i,
                name: regions[i].name.clone(),
                offset: row - start,
            };
        }
    }
    FailureLocation::OutsideRegion { row }
}

/// What the cells that `list` asks for hold, seen from `row`.
fn read_cells(
    list: &Vec<Query>,
    table: &WitnessTable,
    public: &Vec<FieldElement>,
    row: usize,
) -> (r: Vec<
    CellReading,
>)
    ensures
        r@ == readings(list@, table@, public@, row as int),
{
    let mut out: Vec<CellReading> = Vec::new();
    let mut i: usize = 0;
    while i < list.len()
        invariant
            0 <= i <= list.len(),
            out@ == readings(list@.take(i as int), table@, public@, row as int),
        decreases list.len() - i,
    {
        let q = list[i];
        let value = match rotate(row, q.rotation) {
            Some(target) => table.cell_state(public, q.column, target),
            None => CellState::Unassigned,
        };
        out.push(CellReading { column: q.column, rotation: q.rotation, value });
        assert(out@ =~= readings(list@.take(i + 1), table@, public@, row as int));
        i += 1;
    }
    assert(list@.take(list.len() as int) == list@);
    out
}

/// Whether some cell of `column` holds the value `x`.
fn table_has(table: &WitnessTable, column: Column, x: &FieldElement) -> (r: bool)
    ensures
        r == table_holds(table@.cells, column, x@),
{
    let cells = table.cells();
    let mut i: usize = 0;
    while i < cells.len()
        invariant
            0 <= i <= cells.len(),
            cells@ == table@.cells,
            forall|j: int|
                0 <= j < i ==> !((#[trigger] cells@[j]).cell.column == column && cells@[j].value@
                    == x@),
        decreases cells.len() - i,
    {
        if cells[i].cell.column == column && cells[i].value.equals(x) {
            return true;
        }
        i += 1;
    }
    false
}

/// Appends the violations of gate `g` at `row`.
fn check_gate(
    g: usize,
    gate: &Gate,
    table: &WitnessTable,
    public: &Vec<FieldElement>,
    row: usize,
    out: &mut Vec<VerifyFailure>,
)
    ensures
        views(final(out)@) == views(old(out)@) + gate_report(
            g as int,
            *gate,
            gate.constraints@.len() as int,
            table@,
            public@,
            row as int,
        ),
{
    let active = table.is_enabled(gate.selector, row);
    let ghost before = views(out@);
    let mut c: usize = 0;
    assert(before + Seq::<FailureView>::empty() =~= before);
    while c < gate.constraints.len()
        invariant
            0 <= c <= gate.constraints.len(),
            active == enabled(table@, gate.selector, row as int),
            views(out@) == before + gate_report(g as int, *gate, c as int, table@, public@, row as int),
        decreases gate.constraints.len() - c,
    {
        let ghost earlier = gate_report(g as int, *gate, c as int, table@, public@, row as int);
        if active {
            let constraint = &gate.constraints[c];
            let zero = match table.evaluate(&constraint.expression, public, row) {
                CellState::Known(v) => v.is_zero(),
                _ => false,
            };
            if !zero {
                let mut list: Vec<Query> = Vec::new();
                constraint.expression.collect_queries(&mut list);
                let failure = VerifyFailure::ConstraintNotSatisfied {
                    gate: g,
                    gate_name: gate.name.clone(),
                    constraint: c,
                    constraint_name: constraint.name.clone(),
                    location: locate_row(table.regions(), row),
                    cell_values: read_cells(&list, table, public, row),
                };
                proof {
                    lemma_views_push(out@, failure);
                    assert(before + earlier.push(failure@) =~= (before + earlier).push(failure@));
                }
                out.push(failure);
            }
        }
        c += 1;
    }
}

/// Appends the violations of every gate at `row`.
fn check_row(gates: &Vec<Gate>, table: &WitnessTable, public: &Vec<FieldElement>, row: usize, out: &mut Vec<
    VerifyFailure,
>)
    ensures
        views(final(out)@) == views(old(out)@) + row_report(
            gates@,
            gates@.len() as int,
            table@,
            public@,
            row as int,
        ),
{
    let ghost before = views(out@);
    let mut g: usize = 0;
    assert(before + Seq::<FailureView>::empty() =~= before);
    while g < gates.len()
        invariant
            0 <= g <= gates.len(),
            views(out@) == before + row_report(gates@, g as int, table@, public@, row as int),
        decreases gates.len() - g,
    {
        let ghost earlier = row_report(gates@, g as int, table@, public@, row as int);
        let ghost added = gate_report(
            g as int,
            gates@[g as int],
            gates@[g as int].constraints@.len() as int,
            table@,
            public@,
            row as int,
        );
        check_gate(g, &gates[g], table, public, row, out);
        assert((before + earlier) + added =~= before + (earlier + added));
        g += 1;
    }
}

/// Appends the failures of every lookup at `row`.
fn check_lookups(
    lookups: &Vec<Lookup>,
    table: &WitnessTable,
    public: &Vec<FieldElement>,
    row: usize,
    out: &mut Vec<VerifyFailure>,
)
    ensures
        views(final(out)@) == views(old(out)@) + lookup_row_report(
            lookups@,
            lookups@.len() as int,
            table@,
            public@,
            row as int,
        ),
{
    let ghost before = views(out@);
    let mut l: usize = 0;
    assert(before + Seq::<FailureView>::empty() =~= before);
    while l < lookups.len()
        invariant
            0 <= l <= lookups.len(),
            views(out@) == before + lookup_row_report(
                lookups@,
                l as int,
                table@,
                public@,
                row as int,
            ),
        decreases lookups.len() - l,
    {
        let ghost earlier = lookup_row_report(lookups@, l as int, table@, public@, row as int);
        let lookup = &lookups[l];
        if table.is_gated_on(&lookup.input, row) {
            let value = table.evaluate(&lookup.input, public, row);
            let found = match value {
                CellState::Known(v) => table_has(table, lookup.table, &v),
                _ => false,
            };
            if !found {
                let failure = VerifyFailure::LookupFailure {
                    lookup: l,
                    location: locate_row(table.regions(), row),
                    value,
                };
                proof {
                    lemma_views_push(out@, failure);
                    assert(before + earlier.push(failure@) =~= (before + earlier).push(failure@));
                }
                out.push(failure);
            }
        }
        l += 1;
    }
}

/// Appends the bindings that `public` does not meet.
fn check_bindings(table: &WitnessTable, public: &Vec<FieldElement>, out: &mut Vec<VerifyFailure>)
    ensures
        views(final(out)@) == views(old(out)@) + binding_report(
            table@,
            public@,
            table@.bindings.len() as int,
        ),
{
    let bindings = table.bindings();
    let ghost before = views(out@);
    let mut k: usize = 0;
    assert(before + Seq::<FailureView>::empty() =~= before);
    while k < bindings.len()
        invariant
            0 <= k <= bindings.len(),
            bindings@ == table@.bindings,
            views(out@) == before + binding_report(table@, public@, k as int),
        decreases bindings.len() - k,
    {
        let ghost earlier = binding_report(table@, public@, k as int);
        let b = bindings[k];
        let met = if b.row < public.len() {
            match table.stored_value(b.cell) {
                Some(v) => v.equals(&public[b.row]),
                None => false,
            }
        } else {
            false
        };
        if !met {
            let failure = VerifyFailure::PublicInputMismatch {
                binding: k,
                cell: b.cell,
                instance: b.instance,
                row: b.row,
            };
            proof {
                lemma_views_push(out@, failure);
                assert(before + earlier.push(failure@) =~= (before + earlier).push(failure@));
            }
            out.push(failure);
        }
        k += 1;
    }
}

/// Checks `table` against `system` and `public`, and returns every
/// violation: the constraints of active gates that are not zero, by row,
/// gate and constraint; then the active lookups whose input is not in their
/// table, by row and lookup; then the bound cells that do not hold their
/// public input, in order of binding. Nothing is changed, so the same
/// arguments give the same report.
pub fn verify(
    system: &ConstraintSystem,
    table: &WitnessTable,
    public: &Vec<FieldElement>,
) -> (r: Vec<
    VerifyFailure,
>)
    ensures
        views(r@) == report(system@, table@, public@),
{
    let mut out: Vec<VerifyFailure> = Vec::new();
    let gates = system.gates();
    let lookups = system.lookups();
    let rows = table.rows();
    assert(views(out@) =~= Seq::<FailureView>::empty());
    let mut row: usize = 0;
    while row < rows
        invariant
            0 <= row <= rows,
            rows == table@.rows,
            gates@ == system@.gates,
            views(out@) == constraint_report(gates@, table@, public@, row as int),
        decreases rows - row,
    {
        check_row(gates, table, public, row, &mut out);
        row += 1;
    }
    let ghost first = views(out@);
    let mut row: usize = 0;
    assert(first + Seq::<FailureView>::empty() =~= first);
    while row < rows
        invariant
            0 <= row <= rows,
            rows == table@.rows,
            lookups@ == system@.lookups,
            views(out@) == first + lookup_report(lookups@, table@, public@, row as int),
        decreases rows - row,
    {
        let ghost earlier = lookup_report(lookups@, table@, public@, row as int);
        let ghost added = lookup_row_report(
            lookups@,
            lookups@.len() as int,
            table@,
            public@,
            row as int,
        );
        check_lookups(lookups, table, public, row, &mut out);
        assert((first + earlier) + added =~= first + (earlier + added));
        row += 1;
    }
    check_bindings(table, public, &mut out);
    out
}

} // verus!
