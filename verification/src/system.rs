//! The constraint system: columns, gates and lookup arguments, registered
//! during configuration and frozen afterwards.

use crate::column::{contains_column, Column, ColumnKind};
use crate::expression::{well_kinded, Expression};
use vstd::prelude::*;

verus! {

/// A named expression that must be zero wherever its gate is active.
#[derive(Debug, PartialEq, Eq)]
pub struct Constraint {
    pub name: String,
    pub expression: Expression,
}

/// A named set of constraints, switched on per row by one selector.
#[derive(Debug, PartialEq, Eq)]
pub struct Gate {
    pub name: String,
    pub selector: Column,
    pub constraints: Vec<Constraint>,
}

/// A lookup argument: wherever every selector that `input` reads is enabled,
/// the value of `input` must occur in the column `table`.
#[derive(Debug, PartialEq, Eq)]
pub struct Lookup {
    pub input: Expression,
    pub table: Column,
}

/// Why a registration was refused.
#[derive(Clone, Copy, Debug, PartialEq, Eq, Structural)]
pub enum ConfigurationError {
    /// The system was frozen before the call.
    Frozen,
    /// A column of the wrong kind was handed to the operation.
    WrongColumnKind,
}

/// The constraint system under configuration.
pub struct ConstraintSystem {
    columns: Vec<Column>,
    equality: Vec<Column>,
    gates: Vec<Gate>,
    lookups: Vec<Lookup>,
    frozen: bool,
}

/// What a constraint system holds.
pub struct SystemView {
    /// The columns, in order of allocation.
    pub columns: Seq<Column>,
    /// The columns enabled for copy constraints, each once.
    pub equality: Seq<Column>,
    /// The gates, in order of declaration.
    pub gates: Seq<Gate>,
    /// The lookup arguments, in order of declaration.
    pub lookups: Seq<Lookup>,
    /// Whether configuration has ended.
    pub frozen: bool,
}

/// The system with nothing registered, not frozen.
pub open spec fn empty_system() -> SystemView {
    SystemView {
        columns: Seq::empty(),
        equality: Seq::empty(),
        gates: Seq::empty(),
        lookups: Seq::empty(),
        frozen: false,
    }
}

/// The list with `column` in it: added at the end where it was missing.
pub open spec fn with_column(list: Seq<Column>, column: Column) -> Seq<Column> {
    if list.contains(column) {
        list
    } else {
        list.push(column)
    }
}

/// How many of the first `n` columns of `columns` have kind `kind`.
pub open spec fn count_of_kind(columns: Seq<Column>, kind: ColumnKind, n: nat) -> nat
    decreases n,
{
    if n == 0 || n > columns.len() {
        0
    } else {
        count_of_kind(columns, kind, (n - 1) as nat) + if columns[n - 1].kind == kind {
            1nat
        } else {
            0nat
        }
    }
}

/// Whether every constraint of the list is well kinded.
pub open spec fn constraints_well_kinded(constraints: Seq<Constraint>) -> bool {
    forall|i: int| 0 <= i < constraints.len() ==> well_kinded(#[trigger] constraints[i].expression)
}

/// A column of one kind added to a list leaves the count of any other kind
/// as it was.
pub proof fn lemma_count_other_kind(columns: Seq<Column>, added: Column, kind: ColumnKind)
    requires
        added.kind != kind,
    ensures
        count_of_kind(columns.push(added), kind, columns.len() + 1) == count_of_kind(
            columns,
            kind,
            columns.len(),
        ),
{
    lemma_count_prefix(columns, columns.push(added), kind, columns.len());
}

/// A column added to a list raises the count of its kind by one.
pub proof fn lemma_count_same_kind(columns: Seq<Column>, added: Column)
    ensures
        count_of_kind(columns.push(added), added.kind, columns.len() + 1) == count_of_kind(
            columns,
            added.kind,
            columns.len(),
        ) + 1,
{
    lemma_count_prefix(columns, columns.push(added), added.kind, columns.len());
}

/// Lists that agree on their first `n` columns have the same counts there.
pub proof fn lemma_count_prefix(a: Seq<Column>, b: Seq<Column>, kind: ColumnKind, n: nat)
    requires
        n <= a.len(),
        n <= b.len(),
        forall|i: int| 0 <= i < n ==> a[i] == b[i],
    ensures
        count_of_kind(a, kind, n) == count_of_kind(b, kind, n),
    decreases n,
{
    if n > 0 {
        lemma_count_prefix(a, b, kind, (n - 1) as nat);
    }
}

impl View for ConstraintSystem {
    type V = SystemView;

    closed spec fn view(&self) -> SystemView {
        SystemView {
            columns: self.columns@,
            equality: self.equality@,
            gates: self.gates@,
            lookups: self.lookups@,
            frozen: self.frozen,
        }
    }
}

impl ConstraintSystem {
    /// An empty system, open for configuration.
    pub fn new() -> (r: ConstraintSystem)
        ensures
            r@ == empty_system(),
    {
        ConstraintSystem {
            columns: Vec::new(),
            equality: Vec::new(),
            gates: Vec::new(),
            lookups: Vec::new(),
            frozen: false,
        }
    }

    /// Allocates the next column of `kind`. Refused once the system is
    /// frozen.
    pub fn allocate_column(&mut self, kind: ColumnKind) -> (r: Result<Column, ConfigurationError>)
        ensures
            old(self)@.frozen ==> r == Err::<Column, ConfigurationError>(ConfigurationError::Frozen)
                && final(self)@ == old(self)@,
            !old(self)@.frozen ==> r == Ok::<Column, ConfigurationError>(
                Column {
                    kind,
                    index: count_of_kind(old(self)@.columns, kind, old(self)@.columns.len()) as usize,
                },
            ) && final(self)@ == (SystemView {
                columns: old(self)@.columns.push(r.unwrap()),
                ..old(self)@
            }),
    {
        if self.frozen {
            return Err(ConfigurationError::Frozen);
        }
        let mut index: usize = 0;
        let mut i: usize = 0;
        while i < self.columns.len()
            invariant
                0 <= i <= self.columns.len(),
                index == count_of_kind(self.columns@, kind, i as nat),
                index <= i,
            decreases self.columns.len() - i,
        {
            if self.columns[i].kind == kind {
                index += 1;
            }
            i += 1;
        }
        let column = Column { kind, index };
        self.columns.push(column);
        Ok(column)
    }

    /// Marks `column` as eligible for copy constraints. Only advice and
    /// instance columns can be; enabling one twice changes nothing.
    pub fn enable_equality(&mut self, column: Column) -> (r: Result<(), ConfigurationError>)
        ensures
            r == if old(self)@.frozen {
                Err::<(), ConfigurationError>(ConfigurationError::Frozen)
            } else if !column.equality_capable() {
                Err(ConfigurationError::WrongColumnKind)
            } else {
                Ok(())
            },
            final(self)@ == if r is Ok {
                SystemView { equality: with_column(old(self)@.equality, column), ..old(self)@ }
            } else {
                old(self)@
            },
    {
        if self.frozen {
            return Err(ConfigurationError::Frozen);
        }
        match column.kind {
            ColumnKind::Advice => {},
            ColumnKind::Instance => {},
            _ => {
                return Err(ConfigurationError::WrongColumnKind);
            },
        }
        if !contains_column(&self.equality, column) {
            self.equality.push(column);
        }
        Ok(())
    }

    /// Registers a gate: wherever `selector` is enabled, every one of
    /// `constraints` must evaluate to zero.
    pub fn create_gate(
        &mut self,
        name: String,
        selector: Column,
        constraints: Vec<Constraint>,
    ) -> (r:
        Result<(), ConfigurationError>)
        ensures
            r == if old(self)@.frozen {
                Err::<(), ConfigurationError>(ConfigurationError::Frozen)
            } else if selector.kind != ColumnKind::Selector || !constraints_well_kinded(
                constraints@,
            ) {
                Err(ConfigurationError::WrongColumnKind)
            } else {
                Ok(())
            },
            final(self)@ == if r is Ok {
                SystemView {
                    gates: old(self)@.gates.push(Gate { name, selector, constraints }),
                    ..old(self)@
                }
            } else {
                old(self)@
            },
    {
        if self.frozen {
            return Err(ConfigurationError::Frozen);
        }
        if !matches!(selector.kind, ColumnKind::Selector) {
            return Err(ConfigurationError::WrongColumnKind);
        }
        let mut i: usize = 0;
        while i < constraints.len()
            invariant
                0 <= i <= constraints.len(),
                *self == *old(self),
                !self.frozen,
                selector.kind == ColumnKind::Selector,
                forall|j: int| 0 <= j < i ==> well_kinded(#[trigger] constraints@[j].expression),
            decreases constraints.len() - i,
        {
            if !constraints[i].expression.is_well_kinded() {
                assert(!well_kinded(constraints@[i as int].expression));
                return Err(ConfigurationError::WrongColumnKind);
            }
            i += 1;
        }
        self.gates.push(Gate { name, selector, constraints });
        Ok(())
    }

    /// Registers a lookup of `input` in the fixed column `table`.
    pub fn create_lookup(&mut self, input: Expression, table: Column) -> (r: Result<
        (),
        ConfigurationError,
    >)
        ensures
            r == if old(self)@.frozen {
                Err::<(), ConfigurationError>(ConfigurationError::Frozen)
            } else if table.kind != ColumnKind::Fixed || !well_kinded(input) {
                Err(ConfigurationError::WrongColumnKind)
            } else {
                Ok(())
            },
            final(self)@ == if r is Ok {
                SystemView { lookups: old(self)@.lookups.push(Lookup { input, table }), ..old(self)@ }
            } else {
                old(self)@
            },
    {
        if self.frozen {
            return Err(ConfigurationError::Frozen);
        }
        if !matches!(table.kind, ColumnKind::Fixed) {
            return Err(ConfigurationError::WrongColumnKind);
        }
        if !input.is_well_kinded() {
            return Err(ConfigurationError::WrongColumnKind);
        }
        self.lookups.push(Lookup { input, table });
        Ok(())
    }

    /// Ends configuration: every later registration is refused.
    pub fn freeze(&mut self)
        ensures
            final(self)@ == (SystemView { frozen: true, ..old(self)@ }),
    {
        self.frozen = true;
    }

    /// Whether configuration has ended.
    pub fn is_frozen(&self) -> (r: bool)
        ensures
            r == self@.frozen,
    {
        self.frozen
    }

    /// The columns, in order of allocation.
    pub fn columns(&self) -> (r: &Vec<Column>)
        ensures
            r@ == self@.columns,
    {
        &self.columns
    }

    /// The gates, in order of declaration.
    pub fn gates(&self) -> (r: &Vec<Gate>)
        ensures
            r@ == self@.gates,
    {
        &self.gates
    }

    /// The lookup arguments, in order of declaration.
    pub fn lookups(&self) -> (r: &Vec<Lookup>)
        ensures
            r@ == self@.lookups,
    {
        &self.lookups
    }

    /// The columns enabled for copy constraints.
    pub fn equality_columns(&self) -> (r: &Vec<Column>)
        ensures
            r@ == self@.equality,
    {
        &self.equality
    }
}

} // verus!
