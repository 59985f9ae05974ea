//! A PLONKish arithmetization engine: a row/column constraint table with
//! selector-gated polynomial gates, lookup arguments and copy constraints,
//! and a verifier that reports every violated constraint.
//!
//! A circuit is configured on a [`system::ConstraintSystem`], synthesized
//! through a [`layouter::Layouter`], resolved into a frozen
//! [`witness::WitnessTable`], and verified, as often as wanted, by
//! [`verification::verify`]. [`prover::MockProver`] runs the four steps for
//! any [`prover::Circuit`]. The range checks and the Fibonacci circuits are
//! circuits built on the engine, with what a run of each comes to proved.
//!
//! Field arithmetic is that of the Pallas base field as `halo2_proofs`
//! provides it; everything above it is defined and proved here.

pub mod column;
pub mod diagnosis;
pub mod expression;
pub mod fibonacci;
pub mod field;
pub mod layout;
pub mod layouter;
pub mod prover;
pub mod range_check;
pub mod resolution;
pub mod system;
pub mod verification;
pub mod witness;
