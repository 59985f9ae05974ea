//! Circuits and the prover that runs them: configuration, synthesis,
//! resolution, and then verification against the public input, as often as
//! wanted.

use crate::diagnosis::{lemma_empty_report_is_satisfaction, satisfied};
use crate::field::FieldElement;
use crate::layout::{empty_layout, LayoutView, SynthesisError};
use crate::layouter::Layouter;
use crate::resolution::{resolution_error, resolved_table};
use crate::system::{empty_system, ConfigurationError, ConstraintSystem, SystemView};
use crate::verification::{report, verify, views, VerifyFailure};
use crate::witness::{TableView, WitnessTable};
use vstd::prelude::*;

verus! {

/// A circuit: how its columns, gates and lookups are registered, and how
/// its table is filled.
pub trait Circuit: Sized {
    /// What configuration hands to synthesis: the columns of the circuit.
    type Config;

    /// What `configure` does: whether, from the system `before`, it may
    /// leave the system `after` and return `r`.
    spec fn configured(
        before: SystemView,
        after: SystemView,
        r: Result<Self::Config, ConfigurationError>,
    ) -> bool;

    /// What `synthesize` does: whether, from the layout `before`, it may
    /// leave the layout `after` and return `r`.
    spec fn synthesized(
        &self,
        config: Self::Config,
        before: LayoutView,
        after: LayoutView,
        r: Result<(), SynthesisError>,
    ) -> bool;

    /// The same circuit with no witness.
    fn without_witnesses(&self) -> Self;

    /// Registers the columns, gates and lookups of the circuit.
    fn configure(meta: &mut ConstraintSystem) -> (r: Result<Self::Config, ConfigurationError>)
        ensures
            Self::configured(old(meta)@, final(meta)@, r),
    ;

    /// Fills the table through `layouter`.
    fn synthesize(&self, config: Self::Config, layouter: &mut Layouter) -> (r: Result<
        (),
        SynthesisError,
    >)
        requires
            old(layouter)@.wf(),
        ensures
            final(layouter)@.wf(),
            self.synthesized(config, old(layouter)@, final(layouter)@, r),
    ;
}

/// Whether a run may end in `r`, where configuration left the system
/// `sys` and returned `config`, and synthesis, where it came to it, left
/// the layout `layout` and returned `filled`.
pub open spec fn run_ends<C: Circuit>(
    circuit: C,
    public_input: Seq<FieldElement>,
    sys: SystemView,
    config: Result<C::Config, ConfigurationError>,
    layout: LayoutView,
    filled: Result<(), SynthesisError>,
    r: Result<ProverView, SynthesisError>,
) -> bool {
    let frozen = SystemView { frozen: true, ..sys };
    match config {
        Err(e) => r == Err::<ProverView, SynthesisError>(SynthesisError::Configuration(e)),
        Ok(columns) => {
            &&& circuit.synthesized(
                columns,
                empty_layout(sys.equality, public_input),
                layout,
                filled,
            )
            &&& layout.wf()
            &&& match filled {
                Err(e) => r == Err::<ProverView, SynthesisError>(e),
                Ok(()) => match resolution_error(layout, frozen) {
                    Some(e) => r == Err::<ProverView, SynthesisError>(e),
                    None => r == Ok::<ProverView, SynthesisError>(
                        ProverView { system: frozen, table: resolved_table(layout), public_input },
                    ),
                },
            }
        },
    }
}

/// Whether a run of `circuit` on `public_input` may end in `r`: the
/// circuit is configured on an empty system, which is then frozen;
/// synthesized on an empty layout; and the layout resolved. The first
/// error ends the run and is its result.
pub open spec fn run_outcome<C: Circuit>(
    circuit: C,
    public_input: Seq<FieldElement>,
    r: Result<ProverView, SynthesisError>,
) -> bool {
    exists|
        sys: SystemView,
        config: Result<C::Config, ConfigurationError>,
        layout: LayoutView,
        filled: Result<(), SynthesisError>,
    |
        C::configured(empty_system(), sys, config) && #[trigger] run_ends(
            circuit,
            public_input,
            sys,
            config,
            layout,
            filled,
            r,
        )
}

/// A circuit that was configured, synthesized and resolved, ready to be
/// verified.
pub struct MockProver {
    system: ConstraintSystem,
    table: WitnessTable,
    public_input: Vec<FieldElement>,
}

/// What a prover holds.
pub struct ProverView {
    pub system: SystemView,
    pub table: TableView,
    pub public_input: Seq<FieldElement>,
}

impl View for MockProver {
    type V = ProverView;

    closed spec fn view(&self) -> ProverView {
        ProverView {
            system: self.system@,
            table: self.table@,
            public_input: self.public_input@,
        }
    }
}

/// A copy of the public input.
fn copy_input(public_input: &Vec<FieldElement>) -> (r: Vec<FieldElement>)
    ensures
        r@ == public_input@,
{
    let mut out: Vec<FieldElement> = Vec::new();
    let mut i: usize = 0;
    while i < public_input.len()
        invariant
            0 <= i <= public_input.len(),
            out@ == public_input@.take(i as int),
        decreases public_input.len() - i,
    {
        out.push(public_input[i]);
        assert(public_input@.take(i + 1) == public_input@.take(i as int).push(public_input@[i as int]));
        i += 1;
    }
    assert(public_input@.take(public_input.len() as int) == public_input@);
    out
}

impl MockProver {
    /// Configures `circuit` on a new system and freezes it, synthesizes the
    /// circuit against `public_input`, and resolves the table. The first
    /// error ends the run.
    pub fn run<C: Circuit>(circuit: &C, public_input: Vec<FieldElement>) -> (r: Result<
        MockProver,
        SynthesisError,
    >)
        ensures
            run_outcome(
                *circuit,
                public_input@,
                match r {
                    Ok(prover) => Ok(prover@),
                    Err(e) => Err(e),
                },
            ),
    {
        let mut system = ConstraintSystem::new();
        let configured = C::configure(&mut system);
        let ghost sys = system@;
        let ghost outcome = configured;
        let config = match configured {
            Ok(config) => config,
            Err(e) => {
                proof {
                    let r = Err::<ProverView, SynthesisError>(SynthesisError::Configuration(e));
                    assert(run_ends(
                        *circuit,
                        public_input@,
                        sys,
                        outcome,
                        empty_layout(sys.equality, public_input@),
                        Ok(()),
                        r,
                    ));
                }
                return Err(SynthesisError::Configuration(e));
            },
        };
        system.freeze();
        let mut layouter = Layouter::new(&system, copy_input(&public_input));
        let filled = circuit.synthesize(config, &mut layouter);
        let ghost layout = layouter@;
        match filled {
            Ok(()) => {},
            Err(e) => {
                proof {
                    assert(run_ends(
                        *circuit,
                        public_input@,
                        sys,
                        outcome,
                        layout,
                        filled,
                        Err::<ProverView, SynthesisError>(e),
                    ));
                }
                return Err(e);
            },
        }
        match layouter.finalize(&system) {
            Ok(table) => {
                let prover = MockProver { system, table, public_input };
                proof {
                    assert(prover@ == (ProverView {
                        system: SystemView { frozen: true, ..sys },
                        table: resolved_table(layout),
                        public_input: public_input@,
                    }));
                    assert(run_ends(
                        *circuit,
                        public_input@,
                        sys,
                        outcome,
                        layout,
                        filled,
                        Ok::<ProverView, SynthesisError>(prover@),
                    ));
                }
                Ok(prover)
            },
            Err(e) => {
                proof {
                    assert(run_ends(
                        *circuit,
                        public_input@,
                        sys,
                        outcome,
                        layout,
                        filled,
                        Err::<ProverView, SynthesisError>(e),
                    ));
                }
                Err(e)
            },
        }
    }

    /// Verifies the table against the public input of the run.
    pub fn verify(&self) -> (r: Vec<VerifyFailure>)
        ensures
            views(r@) == report(self@.system, self@.table, self@.public_input),
    {
        verify(&self.system, &self.table, &self.public_input)
    }

    /// Whether the table satisfies the system against the public input of
    /// the run: whether verification reports nothing.
    pub fn is_satisfied(&self) -> (r: bool)
        ensures
            r == satisfied(self@.system, self@.table, self@.public_input),
    {
        let failures = self.verify();
        proof {
            lemma_empty_report_is_satisfaction(self@.system, self@.table, self@.public_input);
        }
        failures.len() == 0
    }

    /// Verifies the table against another public input.
    pub fn verify_against(&self, public_input: &Vec<FieldElement>) -> (r: Vec<VerifyFailure>)
        ensures
            views(r@) == report(self@.system, self@.table, public_input@),
    {
        verify(&self.system, &self.table, public_input)
    }

    /// The constraint system of the circuit.
    pub fn system(&self) -> (r: &ConstraintSystem)
        ensures
            r@ == self@.system,
    {
        &self.system
    }

    /// The resolved table.
    pub fn table(&self) -> (r: &WitnessTable)
        ensures
            r@ == self@.table,
    {
        &self.table
    }
}

} // verus!
