//! The two layouts of the recurrence give the same verdict on the same
//! sequence.

use crate::column::{Cell, Column, ColumnKind};
use crate::fibonacci::{columns, rotations};
use crate::fibonacci::recurrence::{fib, mismatch};
use crate::field::FieldElement;
use crate::layout::SynthesisError;
use crate::prover::{run_outcome, ProverView};
use crate::verification::{report, FailureView};
use vstd::prelude::*;

verus! {

/// Whether two records are mismatches of the same binding with the same
/// row of the public input.
pub open spec fn same_mismatch(f: FailureView, g: FailureView) -> bool {
    match (f, g) {
        (
            FailureView::PublicInputMismatch { binding, row, .. },
            FailureView::PublicInputMismatch { binding: other, row: other_row, .. },
        ) => binding == other && row == other_row,
        _ => false,
    }
}

/// Both layouts produce the same verification outcome for the same
/// sequence: run from the seeds `a` and `b`, the circuit over three
/// columns and the circuit down one column both succeed, and against any
/// public input their reports have the same length and, record for
/// record, name the same binding and the same row of the public input.
/// Neither reports a violated constraint.
pub proof fn lemma_layouts_agree(
    a: FieldElement,
    b: FieldElement,
    public_input: Seq<FieldElement>,
    over_columns: Result<ProverView, SynthesisError>,
    down_rotations: Result<ProverView, SynthesisError>,
    check: Seq<FieldElement>,
)
    requires
        public_input.len() >= 2,
        public_input[0] == a,
        public_input[1] == b,
        run_outcome(columns::MyCircuit { a: Some(a), b: Some(b) }, public_input, over_columns),
        run_outcome(rotations::MyCircuit { a: Some(a), b: Some(b) }, public_input, down_rotations),
    ensures
        over_columns is Ok,
        down_rotations is Ok,
        report(over_columns.unwrap().system, over_columns.unwrap().table, check).len() == report(
            down_rotations.unwrap().system,
            down_rotations.unwrap().table,
            check,
        ).len(),
        forall|k: int|
            0 <= k < report(
                over_columns.unwrap().system,
                over_columns.unwrap().table,
                check,
            ).len() ==> same_mismatch(
                #[trigger] report(
                    over_columns.unwrap().system,
                    over_columns.unwrap().table,
                    check,
                )[k],
                report(down_rotations.unwrap().system, down_rotations.unwrap().table, check)[k],
            ),
{
    columns::lemma_run(
        columns::MyCircuit { a: Some(a), b: Some(b) },
        public_input,
        over_columns,
        check,
    );
    rotations::lemma_run(
        rotations::MyCircuit { a: Some(a), b: Some(b) },
        public_input,
        down_rotations,
        check,
    );
    let instance = Column { kind: ColumnKind::Instance, index: 0 };
    let first = Column { kind: ColumnKind::Advice, index: 0 };
    let second = Column { kind: ColumnKind::Advice, index: 1 };
    let third = Column { kind: ColumnKind::Advice, index: 2 };
    let last = fib(a@, b@, 9);
    let c0 = mismatch(0, Cell { column: first, row: 0 }, instance, 0, check, a@);
    let c1 = mismatch(1, Cell { column: second, row: 0 }, instance, 1, check, b@);
    let c2 = mismatch(2, Cell { column: third, row: 7 }, instance, 2, check, last);
    let r0 = mismatch(0, Cell { column: first, row: 0 }, instance, 0, check, a@);
    let r1 = mismatch(1, Cell { column: first, row: 1 }, instance, 1, check, b@);
    let r2 = mismatch(2, Cell { column: first, row: 9 }, instance, 2, check, last);
    assert(c0.len() == r0.len() && c1.len() == r1.len() && c2.len() == r2.len());
    let over = c0 + c1 + c2;
    let down = r0 + r1 + r2;
    assert forall|k: int| 0 <= k < over.len() implies same_mismatch(#[trigger] over[k], down[k]) by {
        if k < c0.len() {
            assert(over[k] == c0[k] && down[k] == r0[k]);
        } else if k < c0.len() + c1.len() {
            assert(over[k] == c1[k - c0.len()] && down[k] == r1[k - r0.len()]);
        } else {
            assert(over[k] == c2[k - c0.len() - c1.len()] && down[k] == r2[k - r0.len()
                - r1.len()]);
        }
    }
}

} // verus!
