//! What a report says: its records are the violations of the table,
//! whether of a constraint on a row, of a lookup on a row, or of a
//! binding, and a table is satisfied where the report is empty.

use crate::field::FieldElement;
use crate::system::{Gate, Lookup, SystemView};
use crate::verification::{
    binding_failure, binding_met, binding_report, constraint_failure, constraint_report,
    constraint_violated, gate_report, lookup_failure, lookup_report, lookup_row_report,
    lookup_violated, report, row_report, FailureView,
};
use crate::witness::TableView;
use vstd::prelude::*;

verus! {

/// Whether `f` is the record of a constraint of one of the first `gates`
/// gates that is violated on `row`.
pub open spec fn constraint_on_row(
    f: FailureView,
    gates: Seq<Gate>,
    n: int,
    t: TableView,
    public: Seq<FieldElement>,
    row: int,
) -> bool {
    exists|g: int, c: int|
        0 <= g < n && 0 <= c < gates[g].constraints@.len() && constraint_violated(
            gates[g],
            c,
            t,
            public,
            row,
        ) && f == #[trigger] constraint_failure(g, gates[g], c, t, public, row)
}

/// Whether `f` is the record of a constraint that is violated on one of
/// the first `n` rows.
pub open spec fn violated_constraint(
    f: FailureView,
    gates: Seq<Gate>,
    t: TableView,
    public: Seq<FieldElement>,
    n: int,
) -> bool {
    exists|row: int|
        0 <= row < n && #[trigger] constraint_on_row(f, gates, gates.len() as int, t, public, row)
}

/// Whether `f` is the record of one of the first `n` lookups that fails
/// on `row`.
pub open spec fn lookup_on_row(
    f: FailureView,
    lookups: Seq<Lookup>,
    n: int,
    t: TableView,
    public: Seq<FieldElement>,
    row: int,
) -> bool {
    exists|l: int|
        0 <= l < n && lookup_violated(lookups[l], t, public, row) && f == #[trigger] lookup_failure(
            l,
            lookups[l],
            t,
            public,
            row,
        )
}

/// Whether `f` is the record of a lookup that fails on one of the first
/// `n` rows.
pub open spec fn failed_lookup(
    f: FailureView,
    lookups: Seq<Lookup>,
    t: TableView,
    public: Seq<FieldElement>,
    n: int,
) -> bool {
    exists|row: int|
        0 <= row < n && #[trigger] lookup_on_row(f, lookups, lookups.len() as int, t, public, row)
}

/// Whether `f` is the record of one of the first `n` bindings that is not
/// met.
pub open spec fn unmet_binding(
    f: FailureView,
    t: TableView,
    public: Seq<FieldElement>,
    n: int,
) -> bool {
    exists|k: int|
        0 <= k < n && !binding_met(t.bindings[k], t, public) && f == #[trigger] binding_failure(
            k,
            t.bindings[k],
        )
}

/// Whether `f` is the record of a violation of the table: of a constraint
/// of a gate on a row where its selector is enabled, of a lookup on a row
/// where it is active, or of a binding.
pub open spec fn violation(
    f: FailureView,
    sys: SystemView,
    t: TableView,
    public: Seq<FieldElement>,
) -> bool {
    ||| violated_constraint(f, sys.gates, t, public, t.rows as int)
    ||| failed_lookup(f, sys.lookups, t, public, t.rows as int)
    ||| unmet_binding(f, t, public, t.bindings.len() as int)
}

/// Whether the table satisfies the system against the public input: no
/// constraint of an enabled gate is violated on any row, no active lookup
/// fails, and every binding is met.
pub open spec fn satisfied(sys: SystemView, t: TableView, public: Seq<FieldElement>) -> bool {
    &&& forall|row: int, g: int, c: int|
        0 <= row < t.rows && 0 <= g < sys.gates.len() && 0 <= c < sys.gates[g].constraints@.len()
            ==> !#[trigger] constraint_violated(sys.gates[g], c, t, public, row)
    &&& forall|row: int, l: int|
        0 <= row < t.rows && 0 <= l < sys.lookups.len() ==> !#[trigger] lookup_violated(
            sys.lookups[l],
            t,
            public,
            row,
        )
    &&& forall|k: int| 0 <= k < t.bindings.len() ==> binding_met(#[trigger] t.bindings[k], t, public)
}

/// What is in one of two sequences is in both put together, and nothing
/// else is.
proof fn lemma_in_either(a: Seq<FailureView>, b: Seq<FailureView>, f: FailureView)
    ensures
        (a + b).contains(f) <==> a.contains(f) || b.contains(f),
{
    if a.contains(f) {
        let k = choose|k: int| 0 <= k < a.len() && a[k] == f;
        assert((a + b)[k] == f);
    }
    if b.contains(f) {
        let k = choose|k: int| 0 <= k < b.len() && b[k] == f;
        assert((a + b)[a.len() + k] == f);
    }
    if (a + b).contains(f) {
        let k = choose|k: int| 0 <= k < (a + b).len() && (a + b)[k] == f;
        if k < a.len() {
            assert(a[k] == f);
        } else {
            assert(b[k - a.len()] == f);
        }
    }
}

/// What is in a sequence or is the element pushed is in the longer
/// sequence, and nothing else is.
proof fn lemma_in_pushed(a: Seq<FailureView>, x: FailureView, f: FailureView)
    ensures
        a.push(x).contains(f) <==> a.contains(f) || f == x,
{
    lemma_in_either(a, seq![x], f);
    assert(a.push(x) =~= a + seq![x]);
    assert(seq![x][0] == x);
}

/// The records of one gate on one row are the violated constraints of it.
proof fn lemma_gate_records(
    f: FailureView,
    g: int,
    gate: Gate,
    n: int,
    t: TableView,
    public: Seq<FieldElement>,
    row: int,
)
    requires
        0 <= n <= gate.constraints@.len(),
    ensures
        gate_report(g, gate, n, t, public, row).contains(f) <==> exists|c: int|
            0 <= c < n && constraint_violated(gate, c, t, public, row) && f
                == #[trigger] constraint_failure(g, gate, c, t, public, row),
    decreases n,
{
    if n > 0 {
        lemma_gate_records(f, g, gate, n - 1, t, public, row);
        let earlier = gate_report(g, gate, n - 1, t, public, row);
        let last = constraint_failure(g, gate, n - 1, t, public, row);
        if constraint_violated(gate, n - 1, t, public, row) {
            lemma_in_pushed(earlier, last, f);
        }
        if gate_report(g, gate, n, t, public, row).contains(f) {
            if earlier.contains(f) {
                let c = choose|c: int|
                    0 <= c < n - 1 && constraint_violated(gate, c, t, public, row) && f
                        == #[trigger] constraint_failure(g, gate, c, t, public, row);
                assert(0 <= c < n && f == constraint_failure(g, gate, c, t, public, row));
            } else {
                assert(f == constraint_failure(g, gate, n - 1, t, public, row));
            }
        }
    } else {
        assert(!Seq::<FailureView>::empty().contains(f));
    }
}

/// The records of one row are the constraints violated on it.
proof fn lemma_row_records(
    f: FailureView,
    gates: Seq<Gate>,
    n: int,
    t: TableView,
    public: Seq<FieldElement>,
    row: int,
)
    requires
        0 <= n <= gates.len(),
    ensures
        row_report(gates, n, t, public, row).contains(f) <==> constraint_on_row(
            f,
            gates,
            n,
            t,
            public,
            row,
        ),
    decreases n,
{
    if n > 0 {
        lemma_row_records(f, gates, n - 1, t, public, row);
        let gate = gates[n - 1];
        let earlier = row_report(gates, n - 1, t, public, row);
        let own = gate_report(n - 1, gate, gate.constraints@.len() as int, t, public, row);
        lemma_gate_records(f, n - 1, gate, gate.constraints@.len() as int, t, public, row);
        lemma_in_either(earlier, own, f);
        if constraint_on_row(f, gates, n, t, public, row) {
            let (g, c) = choose|g: int, c: int|
                0 <= g < n && 0 <= c < gates[g].constraints@.len() && constraint_violated(
                    gates[g],
                    c,
                    t,
                    public,
                    row,
                ) && f == #[trigger] constraint_failure(g, gates[g], c, t, public, row);
            if g < n - 1 {
                assert(constraint_on_row(f, gates, n - 1, t, public, row));
            } else {
                assert(own.contains(f));
            }
        }
        if own.contains(f) {
            let c = choose|c: int|
                0 <= c < gate.constraints@.len() && constraint_violated(gate, c, t, public, row)
                    && f == #[trigger] constraint_failure(n - 1, gate, c, t, public, row);
            assert(f == constraint_failure(n - 1, gates[n - 1], c, t, public, row));
        }
        if earlier.contains(f) {
            let (g, c) = choose|g: int, c: int|
                0 <= g < n - 1 && 0 <= c < gates[g].constraints@.len() && constraint_violated(
                    gates[g],
                    c,
                    t,
                    public,
                    row,
                ) && f == #[trigger] constraint_failure(g, gates[g], c, t, public, row);
            assert(0 <= g < n && f == constraint_failure(g, gates[g], c, t, public, row));
        }
    } else {
        assert(!Seq::<FailureView>::empty().contains(f));
    }
}

/// The records of the constraints are the constraints violated on some
/// row.
proof fn lemma_constraint_records(
    f: FailureView,
    gates: Seq<Gate>,
    t: TableView,
    public: Seq<FieldElement>,
    n: int,
)
    requires
        0 <= n,
    ensures
        constraint_report(gates, t, public, n).contains(f) <==> violated_constraint(
            f,
            gates,
            t,
            public,
            n,
        ),
    decreases n,
{
    if n > 0 {
        lemma_constraint_records(f, gates, t, public, n - 1);
        let earlier = constraint_report(gates, t, public, n - 1);
        let own = row_report(gates, gates.len() as int, t, public, n - 1);
        lemma_row_records(f, gates, gates.len() as int, t, public, n - 1);
        lemma_in_either(earlier, own, f);
        if violated_constraint(f, gates, t, public, n) {
            let row = choose|row: int|
                0 <= row < n && #[trigger] constraint_on_row(
                    f,
                    gates,
                    gates.len() as int,
                    t,
                    public,
                    row,
                );
            if row < n - 1 {
                assert(violated_constraint(f, gates, t, public, n - 1));
            }
        }
        if earlier.contains(f) {
            let row = choose|row: int|
                0 <= row < n - 1 && #[trigger] constraint_on_row(
                    f,
                    gates,
                    gates.len() as int,
                    t,
                    public,
                    row,
                );
            assert(0 <= row < n);
        }
        if own.contains(f) {
            assert(constraint_on_row(f, gates, gates.len() as int, t, public, n - 1));
        }
    } else {
        assert(!Seq::<FailureView>::empty().contains(f));
    }
}

/// The records of the lookups on one row are the lookups that fail on it.
proof fn lemma_lookup_row_records(
    f: FailureView,
    lookups: Seq<Lookup>,
    n: int,
    t: TableView,
    public: Seq<FieldElement>,
    row: int,
)
    requires
        0 <= n <= lookups.len(),
    ensures
        lookup_row_report(lookups, n, t, public, row).contains(f) <==> lookup_on_row(
            f,
            lookups,
            n,
            t,
            public,
            row,
        ),
    decreases n,
{
    if n > 0 {
        lemma_lookup_row_records(f, lookups, n - 1, t, public, row);
        let earlier = lookup_row_report(lookups, n - 1, t, public, row);
        let last = lookup_failure(n - 1, lookups[n - 1], t, public, row);
        if lookup_violated(lookups[n - 1], t, public, row) {
            lemma_in_pushed(earlier, last, f);
        }
        if lookup_on_row(f, lookups, n, t, public, row) {
            let l = choose|l: int|
                0 <= l < n && lookup_violated(lookups[l], t, public, row) && f
                    == #[trigger] lookup_failure(l, lookups[l], t, public, row);
            if l < n - 1 {
                assert(lookup_on_row(f, lookups, n - 1, t, public, row));
            }
        }
        if earlier.contains(f) {
            let l = choose|l: int|
                0 <= l < n - 1 && lookup_violated(lookups[l], t, public, row) && f
                    == #[trigger] lookup_failure(l, lookups[l], t, public, row);
            assert(0 <= l < n);
        }
        if lookup_row_report(lookups, n, t, public, row).contains(f) && !earlier.contains(f) {
            assert(f == lookup_failure(n - 1, lookups[n - 1], t, public, row));
        }
    } else {
        assert(!Seq::<FailureView>::empty().contains(f));
    }
}

/// The records of the lookups are the lookups that fail on some row.
proof fn lemma_lookup_records(
    f: FailureView,
    lookups: Seq<Lookup>,
    t: TableView,
    public: Seq<FieldElement>,
    n: int,
)
    requires
        0 <= n,
    ensures
        lookup_report(lookups, t, public, n).contains(f) <==> failed_lookup(
            f,
            lookups,
            t,
            public,
            n,
        ),
    decreases n,
{
    if n > 0 {
        lemma_lookup_records(f, lookups, t, public, n - 1);
        let earlier = lookup_report(lookups, t, public, n - 1);
        let own = lookup_row_report(lookups, lookups.len() as int, t, public, n - 1);
        lemma_lookup_row_records(f, lookups, lookups.len() as int, t, public, n - 1);
        lemma_in_either(earlier, own, f);
        if failed_lookup(f, lookups, t, public, n) {
            let row = choose|row: int|
                0 <= row < n && #[trigger] lookup_on_row(
                    f,
                    lookups,
                    lookups.len() as int,
                    t,
                    public,
                    row,
                );
            if row < n - 1 {
                assert(failed_lookup(f, lookups, t, public, n - 1));
            }
        }
        if earlier.contains(f) {
            let row = choose|row: int|
                0 <= row < n - 1 && #[trigger] lookup_on_row(
                    f,
                    lookups,
                    lookups.len() as int,
                    t,
                    public,
                    row,
                );
            assert(0 <= row < n);
        }
        if own.contains(f) {
            assert(lookup_on_row(f, lookups, lookups.len() as int, t, public, n - 1));
        }
    } else {
        assert(!Seq::<FailureView>::empty().contains(f));
    }
}

/// The records of the bindings are the bindings that are not met.
proof fn lemma_binding_records(f: FailureView, t: TableView, public: Seq<FieldElement>, n: int)
    requires
        0 <= n <= t.bindings.len(),
    ensures
        binding_report(t, public, n).contains(f) <==> unmet_binding(f, t, public, n),
    decreases n,
{
    if n > 0 {
        lemma_binding_records(f, t, public, n - 1);
        let earlier = binding_report(t, public, n - 1);
        let b = t.bindings[n - 1];
        if !binding_met(b, t, public) {
            lemma_in_pushed(earlier, binding_failure(n - 1, b), f);
        }
        if unmet_binding(f, t, public, n) {
            let k = choose|k: int|
                0 <= k < n && !binding_met(t.bindings[k], t, public) && f
                    == #[trigger] binding_failure(k, t.bindings[k]);
            if k < n - 1 {
                assert(unmet_binding(f, t, public, n - 1));
            }
        }
        if earlier.contains(f) {
            let k = choose|k: int|
                0 <= k < n - 1 && !binding_met(t.bindings[k], t, public) && f
                    == #[trigger] binding_failure(k, t.bindings[k]);
            assert(0 <= k < n);
        }
        if binding_report(t, public, n).contains(f) && !earlier.contains(f) {
            assert(f == binding_failure(n - 1, t.bindings[n - 1]));
        }
    } else {
        assert(!Seq::<FailureView>::empty().contains(f));
    }
}

/// Where no constraint of any gate is violated on any of the first `n`
/// rows, no constraint is reported.
pub proof fn lemma_constraint_report_empty(
    gates: Seq<Gate>,
    t: TableView,
    public: Seq<FieldElement>,
    n: int,
)
    requires
        forall|r: int, g: int, c: int|
            0 <= r < n && 0 <= g < gates.len() && 0 <= c < gates[g].constraints@.len()
                ==> !#[trigger] constraint_violated(gates[g], c, t, public, r),
    ensures
        constraint_report(gates, t, public, n) == Seq::<FailureView>::empty(),
{
    let all = constraint_report(gates, t, public, n);
    if all.len() > 0 {
        let f = all[0];
        assert(all.contains(f));
        if n > 0 {
            lemma_constraint_records(f, gates, t, public, n);
            let row = choose|row: int|
                0 <= row < n && #[trigger] constraint_on_row(
                    f,
                    gates,
                    gates.len() as int,
                    t,
                    public,
                    row,
                );
            let (g, c) = choose|g: int, c: int|
                0 <= g < gates.len() && 0 <= c < gates[g].constraints@.len()
                    && constraint_violated(gates[g], c, t, public, row) && f
                    == #[trigger] constraint_failure(g, gates[g], c, t, public, row);
            assert(!constraint_violated(gates[g], c, t, public, row));
        }
    }
    assert(all =~= Seq::<FailureView>::empty());
}

/// Where no lookup is violated on any of the first `n` rows, no lookup is
/// reported.
pub proof fn lemma_lookup_report_empty(
    lookups: Seq<Lookup>,
    t: TableView,
    public: Seq<FieldElement>,
    n: int,
)
    requires
        forall|r: int, l: int|
            0 <= r < n && 0 <= l < lookups.len() ==> !#[trigger] lookup_violated(
                lookups[l],
                t,
                public,
                r,
            ),
    ensures
        lookup_report(lookups, t, public, n) == Seq::<FailureView>::empty(),
{
    let all = lookup_report(lookups, t, public, n);
    if all.len() > 0 {
        let f = all[0];
        assert(all.contains(f));
        if n > 0 {
            lemma_lookup_records(f, lookups, t, public, n);
            let row = choose|row: int|
                0 <= row < n && #[trigger] lookup_on_row(
                    f,
                    lookups,
                    lookups.len() as int,
                    t,
                    public,
                    row,
                );
            let l = choose|l: int|
                0 <= l < lookups.len() && lookup_violated(lookups[l], t, public, row) && f
                    == #[trigger] lookup_failure(l, lookups[l], t, public, row);
            assert(!lookup_violated(lookups[l], t, public, row));
        }
    }
    assert(all =~= Seq::<FailureView>::empty());
}

/// The report is sound and complete: a record is in it exactly where it
/// is the record of a violation of the table.
pub proof fn lemma_report_is_the_violations(
    f: FailureView,
    sys: SystemView,
    t: TableView,
    public: Seq<FieldElement>,
)
    ensures
        report(sys, t, public).contains(f) <==> violation(f, sys, t, public),
{
    let a = constraint_report(sys.gates, t, public, t.rows as int);
    let b = lookup_report(sys.lookups, t, public, t.rows as int);
    let c = binding_report(t, public, t.bindings.len() as int);
    lemma_constraint_records(f, sys.gates, t, public, t.rows as int);
    lemma_lookup_records(f, sys.lookups, t, public, t.rows as int);
    lemma_binding_records(f, t, public, t.bindings.len() as int);
    lemma_in_either(a, b, f);
    lemma_in_either(a + b, c, f);
}

/// The report is empty exactly where the table satisfies the system
/// against the public input.
pub proof fn lemma_empty_report_is_satisfaction(
    sys: SystemView,
    t: TableView,
    public: Seq<FieldElement>,
)
    ensures
        report(sys, t, public).len() == 0 <==> satisfied(sys, t, public),
{
    let all = report(sys, t, public);
    if satisfied(sys, t, public) {
        if all.len() > 0 {
            let f = all[0];
            assert(all.contains(f));
            lemma_report_is_the_violations(f, sys, t, public);
            lemma_no_violation(f, sys, t, public);
        }
    }
    if all.len() == 0 {
        assert forall|row: int, g: int, c: int|
            0 <= row < t.rows && 0 <= g < sys.gates.len() && 0 <= c < sys.gates[g].constraints@.len()
            implies !#[trigger] constraint_violated(sys.gates[g], c, t, public, row) by {
            if constraint_violated(sys.gates[g], c, t, public, row) {
                let f = constraint_failure(g, sys.gates[g], c, t, public, row);
                assert(constraint_on_row(f, sys.gates, sys.gates.len() as int, t, public, row));
                assert(violated_constraint(f, sys.gates, t, public, t.rows as int));
                lemma_report_is_the_violations(f, sys, t, public);
                assert(all.contains(f));
            }
        }
        assert forall|row: int, l: int|
            0 <= row < t.rows && 0 <= l < sys.lookups.len() implies !#[trigger] lookup_violated(
            sys.lookups[l],
            t,
            public,
            row,
        ) by {
            if lookup_violated(sys.lookups[l], t, public, row) {
                let f = lookup_failure(l, sys.lookups[l], t, public, row);
                assert(lookup_on_row(f, sys.lookups, sys.lookups.len() as int, t, public, row));
                assert(failed_lookup(f, sys.lookups, t, public, t.rows as int));
                lemma_report_is_the_violations(f, sys, t, public);
                assert(all.contains(f));
            }
        }
        assert forall|k: int| 0 <= k < t.bindings.len() implies binding_met(
            #[trigger] t.bindings[k],
            t,
            public,
        ) by {
            if !binding_met(t.bindings[k], t, public) {
                let f = binding_failure(k, t.bindings[k]);
                assert(unmet_binding(f, t, public, t.bindings.len() as int));
                lemma_report_is_the_violations(f, sys, t, public);
                assert(all.contains(f));
            }
        }
    }
}

/// A table that satisfies the system has no violation.
proof fn lemma_no_violation(
    f: FailureView,
    sys: SystemView,
    t: TableView,
    public: Seq<FieldElement>,
)
    requires
        satisfied(sys, t, public),
    ensures
        !violation(f, sys, t, public),
{
    if violated_constraint(f, sys.gates, t, public, t.rows as int) {
        let row = choose|row: int|
            0 <= row < t.rows && #[trigger] constraint_on_row(
                f,
                sys.gates,
                sys.gates.len() as int,
                t,
                public,
                row,
            );
        let (g, c) = choose|g: int, c: int|
            0 <= g < sys.gates.len() && 0 <= c < sys.gates[g].constraints@.len()
                && constraint_violated(sys.gates[g], c, t, public, row) && f
                == #[trigger] constraint_failure(g, sys.gates[g], c, t, public, row);
        assert(!constraint_violated(sys.gates[g], c, t, public, row));
    }
    if failed_lookup(f, sys.lookups, t, public, t.rows as int) {
        let row = choose|row: int|
            0 <= row < t.rows && #[trigger] lookup_on_row(
                f,
                sys.lookups,
                sys.lookups.len() as int,
                t,
                public,
                row,
            );
        let l = choose|l: int|
            0 <= l < sys.lookups.len() && lookup_violated(sys.lookups[l], t, public, row) && f
                == #[trigger] lookup_failure(l, sys.lookups[l], t, public, row);
        assert(!lookup_violated(sys.lookups[l], t, public, row));
    }
    if unmet_binding(f, t, public, t.bindings.len() as int) {
        let k = choose|k: int|
            0 <= k < t.bindings.len() && !binding_met(t.bindings[k], t, public) && f
                == #[trigger] binding_failure(k, t.bindings[k]);
        assert(binding_met(t.bindings[k], t, public));
    }
}

} // verus!
