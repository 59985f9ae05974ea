//! The resolved witness table and the evaluation of expressions on it.

use crate::column::{contains_cell, Cell, Column, ColumnKind, Query};
use crate::expression::{
    lemma_queries, lemma_queries_into, queries, queries_into, reads, Expression,
};
use crate::field::{negation_mod, product_mod, sum_mod, FieldElement};
use crate::layout::{Binding, CellState, Region};
use crate::system::{ConstraintSystem, Gate, Lookup, SystemView};
use vstd::prelude::*;

verus! {

/// A cell and the value it resolved to.
#[derive(Clone, Copy, Debug, PartialEq, Eq)]
pub struct AssignedCell {
    pub cell: Cell,
    pub value: FieldElement,
}

/// The frozen table that verification reads. It offers no way to change it.
#[derive(Debug, PartialEq, Eq)]
pub struct WitnessTable {
    rows: usize,
    cells: Vec<AssignedCell>,
    selectors: Vec<Cell>,
    regions: Vec<Region>,
    bindings: Vec<Binding>,
}

/// What a witness table holds.
pub struct TableView {
    /// The number of rows that the regions take up.
    pub rows: nat,
    /// The cells that have a value.
    pub cells: Seq<AssignedCell>,
    /// The selector cells that are enabled.
    pub selectors: Seq<Cell>,
    /// The regions, in order of request.
    pub regions: Seq<Region>,
    /// The cells bound to the public input.
    pub bindings: Seq<Binding>,
}

/// The residue that a cell state stands for.
pub enum CellValue {
    Unassigned,
    Known(nat),
    Conflicted,
}

impl View for CellState {
    type V = CellValue;

    open spec fn view(&self) -> CellValue {
        match *self {
            CellState::Unassigned => CellValue::Unassigned,
            CellState::Known(v) => CellValue::Known(v@),
            CellState::Conflicted => CellValue::Conflicted,
        }
    }
}

/// The value stored for `cell`, if one is.
pub open spec fn stored(cells: Seq<AssignedCell>, cell: Cell) -> Option<FieldElement>
    decreases cells.len(),
{
    if cells.len() == 0 {
        None
    } else if cells.last().cell == cell {
        Some(cells.last().value)
    } else {
        stored(cells.drop_last(), cell)
    }
}

/// What a constraint that reads the cell of `column` at `row` finds. A
/// row that is not one of the rows of the table holds nothing: rotations
/// do not lead out of the table. An instance column shows the public
/// input, row for row; a selector column holds no cells; any other column
/// shows the table.
pub open spec fn cell_state_at(
    t: TableView,
    public: Seq<FieldElement>,
    column: Column,
    row: int,
) -> CellState {
    if row < 0 || row >= t.rows || row > usize::MAX {
        CellState::Unassigned
    } else {
        match column.kind {
            ColumnKind::Instance => if row < public.len() {
                CellState::Known(public[row])
            } else {
                CellState::Unassigned
            },
            ColumnKind::Selector => CellState::Unassigned,
            _ => match stored(t.cells, Cell { column, row: row as usize }) {
                Some(v) => CellState::Known(v),
                None => CellState::Unassigned,
            },
        }
    }
}

/// Whether the selector `column` is enabled at `row`.
pub open spec fn enabled(t: TableView, column: Column, row: int) -> bool {
    0 <= row <= usize::MAX && t.selectors.contains(Cell { column, row: row as usize })
}

/// The result of a binary operation on two values: known where both are.
pub open spec fn both_known(a: CellValue, b: CellValue, r: nat) -> CellValue {
    match (a, b) {
        (CellValue::Known(_), CellValue::Known(_)) => CellValue::Known(r),
        (CellValue::Conflicted, _) => CellValue::Conflicted,
        (_, CellValue::Conflicted) => CellValue::Conflicted,
        _ => CellValue::Unassigned,
    }
}

/// The residue under a known value, zero otherwise.
pub open spec fn residue(v: CellValue) -> nat {
    match v {
        CellValue::Known(x) => x,
        _ => 0,
    }
}

/// The value of `e` at `row`.
pub open spec fn eval(e: Expression, t: TableView, public: Seq<FieldElement>, row: int) -> CellValue
    decreases e,
{
    match e {
        Expression::Constant(c) => CellValue::Known(c@),
        Expression::ColumnQuery(column, rotation) => cell_state_at(t, public, column, row + rotation)@,
        Expression::Selector(column) => CellValue::Known(
            if enabled(t, column, row) {
                1
            } else {
                0
            },
        ),
        Expression::Sum(a, b) => {
            let x = eval(*a, t, public, row);
            let y = eval(*b, t, public, row);
            both_known(x, y, sum_mod(residue(x), residue(y)))
        },
        Expression::Product(a, b) => {
            let x = eval(*a, t, public, row);
            let y = eval(*b, t, public, row);
            both_known(x, y, product_mod(residue(x), residue(y)))
        },
        Expression::Negate(a) => {
            let x = eval(*a, t, public, row);
            both_known(x, x, negation_mod(residue(x)))
        },
        Expression::ScalarMul(a, c) => {
            let x = eval(*a, t, public, row);
            both_known(x, x, product_mod(residue(x), c@))
        },
    }
}

/// Whether every selector that `e` reads is enabled at `row`.
pub open spec fn gated_on(e: Expression, t: TableView, row: int) -> bool
    decreases e,
{
    match e {
        Expression::Constant(_) => true,
        Expression::ColumnQuery(_, _) => true,
        Expression::Selector(column) => enabled(t, column, row),
        Expression::Sum(a, b) => gated_on(*a, t, row) && gated_on(*b, t, row),
        Expression::Product(a, b) => gated_on(*a, t, row) && gated_on(*b, t, row),
        Expression::Negate(a) => gated_on(*a, t, row),
        Expression::ScalarMul(a, _) => gated_on(*a, t, row),
    }
}

/// The distinct queries of the first `n` constraints of `gate`.
pub open spec fn gate_queries(gate: Gate, n: int) -> Seq<Query>
    decreases n,
{
    if n <= 0 {
        Seq::empty()
    } else {
        queries_into(gate.constraints@[n - 1].expression, gate_queries(gate, n - 1))
    }
}

/// The queries of those of the first `n` gates that are active at `row`.
pub open spec fn gate_references(gates: Seq<Gate>, n: int, t: TableView, row: int) -> Seq<Query>
    decreases n,
{
    if n <= 0 {
        Seq::empty()
    } else {
        let earlier = gate_references(gates, n - 1, t, row);
        if enabled(t, gates[n - 1].selector, row) {
            earlier + gate_queries(gates[n - 1], gates[n - 1].constraints@.len() as int)
        } else {
            earlier
        }
    }
}

/// The queries of those of the first `n` lookups that are active at `row`.
pub open spec fn lookup_references(
    lookups: Seq<Lookup>,
    n: int,
    t: TableView,
    row: int,
) -> Seq<Query>
    decreases n,
{
    if n <= 0 {
        Seq::empty()
    } else {
        let earlier = lookup_references(lookups, n - 1, t, row);
        if gated_on(lookups[n - 1].input, t, row) {
            earlier + queries(lookups[n - 1].input)
        } else {
            earlier
        }
    }
}

/// Every query that an active gate or an active lookup makes at `row`:
/// gates first, in order of declaration, then lookups.
pub open spec fn references(sys: SystemView, t: TableView, row: int) -> Seq<Query> {
    gate_references(sys.gates, sys.gates.len() as int, t, row) + lookup_references(
        sys.lookups,
        sys.lookups.len() as int,
        t,
        row,
    )
}

/// The index of the first of the first `n` queries of `list` that finds no
/// value at `row`, or `-1`.
pub open spec fn first_missing(
    list: Seq<Query>,
    n: int,
    t: TableView,
    public: Seq<FieldElement>,
    row: int,
) -> int
    decreases n,
{
    if n <= 0 {
        -1
    } else {
        let earlier = first_missing(list, n - 1, t, public, row);
        if earlier >= 0 {
            earlier
        } else if n <= list.len() && !(cell_state_at(
            t,
            public,
            list[n - 1].column,
            row + list[n - 1].rotation,
        ) is Known) {
            n - 1
        } else {
            -1
        }
    }
}

/// Whether some reference made at `row` finds no value.
pub open spec fn row_incomplete(
    sys: SystemView,
    t: TableView,
    public: Seq<FieldElement>,
    row: int,
) -> bool {
    first_missing(references(sys, t, row), references(sys, t, row).len() as int, t, public, row) >= 0
}

/// The first of the first `n` rows on which a reference finds no value, or
/// `-1`.
pub open spec fn first_incomplete_row(
    sys: SystemView,
    t: TableView,
    public: Seq<FieldElement>,
    n: int,
) -> int
    decreases n,
{
    if n <= 0 {
        -1
    } else {
        let earlier = first_incomplete_row(sys, t, public, n - 1);
        if earlier >= 0 {
            earlier
        } else if row_incomplete(sys, t, public, n - 1) {
            n - 1
        } else {
            -1
        }
    }
}

/// The row that `rotation` leads to from `row`, where the table can have
/// such a row.
pub fn rotate(row: usize, rotation: i32) -> (r: Option<usize>)
    ensures
        match r {
            Some(target) => target == row + rotation,
            None => row + rotation < 0 || row + rotation > usize::MAX,
        },
{
    if rotation >= 0 {
        let up = rotation as usize;
        if up <= usize::MAX - row {
            Some(row + up)
        } else {
            None
        }
    } else {
        let down = (-(rotation as i64)) as usize;
        if down <= row {
            Some(row - down)
        } else {
            None
        }
    }
}

impl View for WitnessTable {
    type V = TableView;

    closed spec fn view(&self) -> TableView {
        TableView {
            rows: self.rows as nat,
            cells: self.cells@,
            selectors: self.selectors@,
            regions: self.regions@,
            bindings: self.bindings@,
        }
    }
}

impl WitnessTable {
    /// A table of `rows` rows that holds what it is given.
    pub fn new(
        rows: usize,
        cells: Vec<AssignedCell>,
        selectors: Vec<Cell>,
        regions: Vec<Region>,
        bindings: Vec<Binding>,
    ) -> (r: WitnessTable)
        ensures
            r@ == (TableView {
                rows: rows as nat,
                cells: cells@,
                selectors: selectors@,
                regions: regions@,
                bindings: bindings@,
            }),
    {
        WitnessTable { rows, cells, selectors, regions, bindings }
    }

    /// The number of rows that the regions take up.
    pub fn rows(&self) -> (r: usize)
        ensures
            r == self@.rows,
    {
        self.rows
    }

    /// The regions, in order of request.
    pub fn regions(&self) -> (r: &Vec<Region>)
        ensures
            r@ == self@.regions,
    {
        &self.regions
    }

    /// The cells bound to the public input.
    pub fn bindings(&self) -> (r: &Vec<Binding>)
        ensures
            r@ == self@.bindings,
    {
        &self.bindings
    }

    /// The cells that have a value.
    pub fn cells(&self) -> (r: &Vec<AssignedCell>)
        ensures
            r@ == self@.cells,
    {
        &self.cells
    }

    /// What a constraint that reads the cell of `column` at `row` finds,
    /// against the public input `public`.
    pub fn cell_state(&self, public: &Vec<FieldElement>, column: Column, row: usize) -> (r:
        CellState)
        ensures
            r == cell_state_at(self@, public@, column, row as int),
    {
        if row >= self.rows {
            return CellState::Unassigned;
        }
        match column.kind {
            ColumnKind::Instance => {
                if row < public.len() {
                    CellState::Known(public[row])
                } else {
                    CellState::Unassigned
                }
            },
            ColumnKind::Selector => CellState::Unassigned,
            _ => match self.stored_value(Cell { column, row }) {
                Some(v) => CellState::Known(v),
                None => CellState::Unassigned,
            },
        }
    }

    /// The value stored for `cell`, if one is.
    pub fn stored_value(&self, cell: Cell) -> (r: Option<FieldElement>)
        ensures
            r == stored(self@.cells, cell),
    {
        let mut i: usize = self.cells.len();
        assert(self.cells@.take(i as int) == self.cells@);
        while i > 0
            invariant
                0 <= i <= self.cells.len(),
                stored(self.cells@, cell) == stored(self.cells@.take(i as int), cell),
            decreases i,
        {
            i -= 1;
            assert(self.cells@.take(i + 1).drop_last() == self.cells@.take(i as int));
            if self.cells[i].cell == cell {
                return Some(self.cells[i].value);
            }
        }
        None
    }

    /// Whether the selector `column` is enabled at `row`.
    pub fn is_enabled(&self, column: Column, row: usize) -> (r: bool)
        ensures
            r == enabled(self@, column, row as int),
    {
        contains_cell(&self.selectors, Cell { column, row })
    }

    /// The value of `e` at `row`, read against this table and `public`.
    pub fn evaluate(&self, e: &Expression, public: &Vec<FieldElement>, row: usize) -> (r: CellState)
        ensures
            r@ == eval(*e, self@, public@, row as int),
        decreases *e,
    {
        match e {
            Expression::Constant(c) => CellState::Known(*c),
            Expression::ColumnQuery(column, rotation) => {
                match rotate(row, *rotation) {
                    Some(target) => self.cell_state(public, *column, target),
                    None => CellState::Unassigned,
                }
            },
            Expression::Selector(column) => {
                if self.is_enabled(*column, row) {
                    CellState::Known(FieldElement::one())
                } else {
                    CellState::Known(FieldElement::zero())
                }
            },
            Expression::Sum(a, b) => {
                let x = self.evaluate(a, public, row);
                let y = self.evaluate(b, public, row);
                match (x, y) {
                    (CellState::Known(p), CellState::Known(q)) => CellState::Known(p.plus(&q)),
                    (CellState::Conflicted, _) => CellState::Conflicted,
                    (_, CellState::Conflicted) => CellState::Conflicted,
                    _ => CellState::Unassigned,
                }
            },
            Expression::Product(a, b) => {
                let x = self.evaluate(a, public, row);
                let y = self.evaluate(b, public, row);
                match (x, y) {
                    (CellState::Known(p), CellState::Known(q)) => CellState::Known(p.times(&q)),
                    (CellState::Conflicted, _) => CellState::Conflicted,
                    (_, CellState::Conflicted) => CellState::Conflicted,
                    _ => CellState::Unassigned,
                }
            },
            Expression::Negate(a) => {
                match self.evaluate(a, public, row) {
                    CellState::Known(p) => CellState::Known(p.negated()),
                    other => other,
                }
            },
            Expression::ScalarMul(a, c) => {
                match self.evaluate(a, public, row) {
                    CellState::Known(p) => CellState::Known(p.times(c)),
                    other => other,
                }
            },
        }
    }

    /// Whether every selector that `e` reads is enabled at `row`.
    pub fn is_gated_on(&self, e: &Expression, row: usize) -> (r: bool)
        ensures
            r == gated_on(*e, self@, row as int),
        decreases *e,
    {
        match e {
            Expression::Constant(_) => true,
            Expression::ColumnQuery(_, _) => true,
            Expression::Selector(column) => self.is_enabled(*column, row),
            Expression::Sum(a, b) => self.is_gated_on(a, row) && self.is_gated_on(b, row),
            Expression::Product(a, b) => self.is_gated_on(a, row) && self.is_gated_on(b, row),
            Expression::Negate(a) => self.is_gated_on(a, row),
            Expression::ScalarMul(a, _) => self.is_gated_on(a, row),
        }
    }
    /// Every query that an active gate or an active lookup makes at `row`.
    pub fn references_at(&self, system: &ConstraintSystem, row: usize) -> (r: Vec<Query>)
        ensures
            r@ == references(system@, self@, row as int),
    {
        let gates = system.gates();
        let lookups = system.lookups();
        let mut out: Vec<Query> = Vec::new();
        let mut g: usize = 0;
        while g < gates.len()
            invariant
                0 <= g <= gates.len(),
                out@ == gate_references(gates@, g as int, self@, row as int),
            decreases gates.len() - g,
        {
            let gate = &gates[g];
            if self.is_enabled(gate.selector, row) {
                let mut list: Vec<Query> = Vec::new();
                let mut c: usize = 0;
                while c < gate.constraints.len()
                    invariant
                        0 <= c <= gate.constraints.len(),
                        list@ == gate_queries(*gate, c as int),
                    decreases gate.constraints.len() - c,
                {
                    gate.constraints[c].expression.collect_queries(&mut list);
                    c += 1;
                }
                out.append(&mut list);
            }
            g += 1;
        }
        let ghost first = out@;
        let mut l: usize = 0;
        assert(first + Seq::<Query>::empty() =~= first);
        while l < lookups.len()
            invariant
                0 <= l <= lookups.len(),
                out@ == first + lookup_references(lookups@, l as int, self@, row as int),
            decreases lookups.len() - l,
        {
            let ghost earlier = lookup_references(lookups@, l as int, self@, row as int);
            let lookup = &lookups[l];
            if self.is_gated_on(&lookup.input, row) {
                let mut list: Vec<Query> = Vec::new();
                lookup.input.collect_queries(&mut list);
                assert((first + earlier) + list@ =~= first + (earlier + list@));
                out.append(&mut list);
            }
            l += 1;
        }
        out
    }

    /// The first reference of an active gate or lookup that finds no value,
    /// by row and then in the order of `references`, with its row.
    pub fn missing_reference(
        &self,
        system: &ConstraintSystem,
        public: &Vec<FieldElement>,
    ) -> (r: Option<
        (usize, Query),
    >)
        ensures
            match r {
                Some((row, q)) => {
                    let list = references(system@, self@, row as int);
                    let k = first_missing(list, list.len() as int, self@, public@, row as int);
                    &&& first_incomplete_row(system@, self@, public@, self@.rows as int) == row
                    &&& 0 <= k < list.len()
                    &&& q == list[k]
                },
                None => first_incomplete_row(system@, self@, public@, self@.rows as int) < 0,
            },
    {
        let mut row: usize = 0;
        while row < self.rows
            invariant
                0 <= row <= self.rows,
                first_incomplete_row(system@, self@, public@, row as int) < 0,
            decreases self.rows - row,
        {
            let list = self.references_at(system, row);
            let mut k: usize = 0;
            while k < list.len()
                invariant
                    0 <= k <= list.len(),
                    0 <= row < self.rows,
                    list@ == references(system@, self@, row as int),
                    first_incomplete_row(system@, self@, public@, row as int) < 0,
                    first_missing(list@, k as int, self@, public@, row as int) < 0,
                decreases list.len() - k,
            {
                let q = list[k];
                let known = match rotate(row, q.rotation) {
                    Some(target) => match self.cell_state(public, q.column, target) {
                        CellState::Known(_) => true,
                        _ => false,
                    },
                    None => false,
                };
                if !known {
                    proof {
                        lemma_first_missing_stable(
                            list@,
                            k + 1,
                            list@.len() as int,
                            self@,
                            public@,
                            row as int,
                        );
                        lemma_first_incomplete_row_stable(
                            system@,
                            self@,
                            public@,
                            row + 1,
                            self@.rows as int,
                        );
                    }
                    return Some((row, q));
                }
                k += 1;
            }
            row += 1;
        }
        None
    }
}

/// Whether the query `q`, made on `row`, finds a value.
pub open spec fn answered(q: Query, t: TableView, public: Seq<FieldElement>, row: int) -> bool {
    cell_state_at(t, public, q.column, row + q.rotation) is Known
}

/// Whether every query that `e` makes on `row` finds a value.
pub open spec fn reads_answered(
    e: Expression,
    t: TableView,
    public: Seq<FieldElement>,
    row: int,
) -> bool {
    forall|q: Query| #[trigger] reads(e, q) ==> answered(q, t, public, row)
}

/// Whether every query of every constraint of `gate` finds a value on
/// `row`.
pub open spec fn gate_answered(
    gate: Gate,
    t: TableView,
    public: Seq<FieldElement>,
    row: int,
) -> bool {
    forall|c: int|
        0 <= c < gate.constraints@.len() ==> reads_answered(
            (#[trigger] gate.constraints@[c]).expression,
            t,
            public,
            row,
        )
}

/// Whether every query of every active gate and lookup finds a value on
/// `row`.
pub open spec fn row_answered(
    sys: SystemView,
    t: TableView,
    public: Seq<FieldElement>,
    row: int,
) -> bool {
    &&& forall|g: int|
        0 <= g < sys.gates.len() && enabled(t, (#[trigger] sys.gates[g]).selector, row)
            ==> gate_answered(sys.gates[g], t, public, row)
    &&& forall|l: int|
        0 <= l < sys.lookups.len() && gated_on((#[trigger] sys.lookups[l]).input, t, row)
            ==> reads_answered(sys.lookups[l].input, t, public, row)
}

/// The queries of the first `n` constraints of a gate are those that they
/// make.
pub proof fn lemma_gate_queries(gate: Gate, n: int, q: Query)
    requires
        0 <= n <= gate.constraints@.len(),
    ensures
        gate_queries(gate, n).contains(q) <==> exists|c: int|
            0 <= c < n && reads((#[trigger] gate.constraints@[c]).expression, q),
    decreases n,
{
    if n > 0 {
        lemma_gate_queries(gate, n - 1, q);
        lemma_queries_into(gate.constraints@[n - 1].expression, gate_queries(gate, n - 1), q);
        if gate_queries(gate, n).contains(q) {
            if gate_queries(gate, n - 1).contains(q) {
                let c = choose|c: int|
                    0 <= c < n - 1 && reads((#[trigger] gate.constraints@[c]).expression, q);
                assert(0 <= c < n && reads(gate.constraints@[c].expression, q));
            } else {
                assert(reads(gate.constraints@[n - 1].expression, q));
            }
        }
    }
}

/// Every reference made on a row on which all queries of active gates and
/// lookups find a value finds one.
pub proof fn lemma_row_complete(sys: SystemView, t: TableView, public: Seq<FieldElement>, row: int)
    requires
        row_answered(sys, t, public, row),
    ensures
        !row_incomplete(sys, t, public, row),
{
    let list = references(sys, t, row);
    assert forall|k: int| 0 <= k < list.len() implies answered(list[k], t, public, row) by {
        let q = list[k];
        let from_gates = gate_references(sys.gates, sys.gates.len() as int, t, row);
        if k < from_gates.len() {
            assert(from_gates[k] == q);
            lemma_gate_references(sys.gates, sys.gates.len() as int, t, public, row, q);
        } else {
            let from_lookups = lookup_references(sys.lookups, sys.lookups.len() as int, t, row);
            assert(from_lookups[k - from_gates.len()] == q);
            lemma_lookup_references(sys.lookups, sys.lookups.len() as int, t, public, row, q);
        }
    }
    lemma_none_missing(list, list.len() as int, t, public, row);
}

/// A query among the references of the first `n` gates is made by a
/// constraint of an active gate, and finds a value where all of those do.
proof fn lemma_gate_references(
    gates: Seq<Gate>,
    n: int,
    t: TableView,
    public: Seq<FieldElement>,
    row: int,
    q: Query,
)
    requires
        0 <= n <= gates.len(),
        gate_references(gates, n, t, row).contains(q),
        forall|g: int|
            0 <= g < gates.len() && enabled(t, (#[trigger] gates[g]).selector, row)
                ==> gate_answered(gates[g], t, public, row),
    ensures
        answered(q, t, public, row),
    decreases n,
{
    if n > 0 {
        let earlier = gate_references(gates, n - 1, t, row);
        let gate = gates[n - 1];
        let own = gate_queries(gate, gate.constraints@.len() as int);
        let now = gate_references(gates, n, t, row);
        let k = choose|k: int| 0 <= k < now.len() && now[k] == q;
        if k < earlier.len() {
            assert(earlier[k] == q);
            lemma_gate_references(gates, n - 1, t, public, row, q);
        } else {
            assert(enabled(t, gate.selector, row));
            assert(own[k - earlier.len()] == q);
            lemma_gate_queries(gate, gate.constraints@.len() as int, q);
            let c = choose|c: int|
                0 <= c < gate.constraints@.len() && reads(
                    (#[trigger] gate.constraints@[c]).expression,
                    q,
                );
            assert(gate_answered(gate, t, public, row));
            assert(reads_answered(gate.constraints@[c].expression, t, public, row));
        }
    }
}

/// A query among the references of the first `n` lookups is made by the
/// input of an active lookup, and finds a value where all of those do.
proof fn lemma_lookup_references(
    lookups: Seq<Lookup>,
    n: int,
    t: TableView,
    public: Seq<FieldElement>,
    row: int,
    q: Query,
)
    requires
        0 <= n <= lookups.len(),
        lookup_references(lookups, n, t, row).contains(q),
        forall|l: int|
            0 <= l < lookups.len() && gated_on((#[trigger] lookups[l]).input, t, row)
                ==> reads_answered(lookups[l].input, t, public, row),
    ensures
        answered(q, t, public, row),
    decreases n,
{
    if n > 0 {
        let earlier = lookup_references(lookups, n - 1, t, row);
        let lookup = lookups[n - 1];
        let now = lookup_references(lookups, n, t, row);
        let k = choose|k: int| 0 <= k < now.len() && now[k] == q;
        if k < earlier.len() {
            assert(earlier[k] == q);
            lemma_lookup_references(lookups, n - 1, t, public, row, q);
        } else {
            assert(gated_on(lookup.input, t, row));
            assert(queries(lookup.input)[k - earlier.len()] == q);
            lemma_queries(lookup.input, q);
            assert(reads_answered(lookup.input, t, public, row));
        }
    }
}

/// A list of queries that all find a value has none missing.
proof fn lemma_none_missing(
    list: Seq<Query>,
    n: int,
    t: TableView,
    public: Seq<FieldElement>,
    row: int,
)
    requires
        0 <= n <= list.len(),
        forall|k: int| 0 <= k < list.len() ==> answered(list[k], t, public, row),
    ensures
        first_missing(list, n, t, public, row) < 0,
    decreases n,
{
    if n > 0 {
        lemma_none_missing(list, n - 1, t, public, row);
        assert(answered(list[n - 1], t, public, row));
    }
}

/// Where every reference on each of the first `n` rows finds a value, no
/// row is incomplete.
pub proof fn lemma_rows_complete(sys: SystemView, t: TableView, public: Seq<FieldElement>, n: int)
    requires
        forall|row: int| 0 <= row < n ==> #[trigger] row_answered(sys, t, public, row),
    ensures
        first_incomplete_row(sys, t, public, n) < 0,
    decreases n,
{
    if n > 0 {
        lemma_rows_complete(sys, t, public, n - 1);
        assert(row_answered(sys, t, public, n - 1));
        lemma_row_complete(sys, t, public, n - 1);
    }
}

/// Once a missing reference is found among the first `k`, it stays the
/// first among any more.
pub proof fn lemma_first_missing_stable(
    list: Seq<Query>,
    k: int,
    m: int,
    t: TableView,
    public: Seq<FieldElement>,
    row: int,
)
    requires
        0 <= k <= m,
        first_missing(list, k, t, public, row) >= 0,
    ensures
        first_missing(list, m, t, public, row) == first_missing(list, k, t, public, row),
    decreases m - k,
{
    if k < m {
        lemma_first_missing_stable(list, k, m - 1, t, public, row);
    }
}

/// Once an incomplete row is found among the first `k`, it stays the first
/// among any more.
pub proof fn lemma_first_incomplete_row_stable(
    sys: SystemView,
    t: TableView,
    public: Seq<FieldElement>,
    k: int,
    m: int,
)
    requires
        0 <= k <= m,
        first_incomplete_row(sys, t, public, k) >= 0,
    ensures
        first_incomplete_row(sys, t, public, m) == first_incomplete_row(sys, t, public, k),
    decreases m - k,
{
    if k < m {
        lemma_first_incomplete_row_stable(sys, t, public, k, m - 1);
    }
}

} // verus!
