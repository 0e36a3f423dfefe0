//! Arithmetic-constraint (R1CS) framework for expressing cryptographic
//! computations — field arithmetic, curve-group operations, pairings, hashing
//! and non-native field emulation — as rank-1 constraint systems, together
//! with the decision logic a pairing-based proving backend is driven by.
//!
//! Native big-field, curve and pairing arithmetic is supplied by the
//! `ark-bls12-377` family of crates behind small trusted wrappers that work
//! on plain limb vectors; everything recorded in the constraint ledger and
//! every gadget's bookkeeping is verified here.
pub mod cs;
pub mod fields;
pub mod gadgets;
pub mod pipeline;
pub use cs::{ConstraintSystem, CsError, CsMetrics, LinComb, OptGoal, Role, Term};
pub use fields::FieldId;
pub use gadgets::felt::FeltVar;
pub use pipeline::{PipelinePhase, ProofPipeline};
