//! The proof pipeline's decision logic.
//!
//! The pairing-based proving backend (setup, prove, verify) runs outside this
//! library, driven by the caller: producing keys and proofs needs the
//! backend's own circuit-synthesis interface.  Every decision the pipeline
//! takes — which phase transitions are legal, whether the witness satisfies
//! the recorded constraints before proving, whether a public-input vector
//! even has the right shape — is made here, verified, on the constraint
//! system itself.
use vstd::prelude::*;

use crate::cs::{ConstraintSystem, CsError};

verus! {

/// Where a pipeline run stands.
#[derive(Clone, Copy, Debug, PartialEq, Eq, Structural)]
pub enum PipelinePhase {
    /// No keys exist yet.
    Unconfigured,
    /// Setup ran on a witness-independent topology; keys exist.
    KeysReady,
    /// A proof was produced for the recorded topology.
    ProofReady,
}

/// One proving pipeline: its phase and the shape of the circuit the keys
/// were derived for.
pub struct ProofPipeline {
    pub phase: PipelinePhase,
    pub num_public: usize,
    pub num_constraints: usize,
}

impl ProofPipeline {
    pub fn new() -> (r: ProofPipeline)
        ensures
            r.phase == PipelinePhase::Unconfigured,
    {
        ProofPipeline { phase: PipelinePhase::Unconfigured, num_public: 0, num_constraints: 0 }
    }

    /// Accepts a circuit for key derivation: legal exactly once, from the
    /// initial phase, and records the topology the keys belong to.  The
    /// caller runs the backend's setup on the same system afterwards.
    pub fn accept_setup(&mut self, cs: &ConstraintSystem) -> (r: Result<(), CsError>)
        ensures
            old(self).phase != PipelinePhase::Unconfigured ==> r == Err::<(), CsError>(
                CsError::TopologyMismatch,
            ) && *final(self) == *old(self),
            old(self).phase == PipelinePhase::Unconfigured ==> {
                &&& r == Ok::<(), CsError>(())
                &&& final(self).phase == PipelinePhase::KeysReady
                &&& final(self).num_public == cs.spec_metrics().num_instance_variables
                &&& final(self).num_constraints == cs.spec_metrics().num_constraints
            },
    {
        if !matches!(self.phase, PipelinePhase::Unconfigured) {
            return Err(CsError::TopologyMismatch);
        }
        let m = cs.metrics();
        self.phase = PipelinePhase::KeysReady;
        self.num_public = m.num_instance_variables;
        self.num_constraints = m.num_constraints;
        Ok(())
    }

    /// Admits a witness-bearing circuit for proving.  Fails with
    /// `TopologyMismatch` where the circuit's shape differs from the one the
    /// keys were derived for, with `AssignmentMissing` where witness values
    /// were never supplied, and with `ConstraintViolation` where the
    /// recorded assignment does not satisfy the constraints: an internal
    /// consistency check, not a verifier-side rejection.
    pub fn accept_prove(&mut self, cs: &ConstraintSystem) -> (r: Result<(), CsError>)
        requires
            cs.wf(),
        ensures
            old(self).phase != PipelinePhase::KeysReady ==> r == Err::<(), CsError>(
                CsError::TopologyMismatch,
            ) && *final(self) == *old(self),
            old(self).phase == PipelinePhase::KeysReady && (cs.spec_metrics().num_instance_variables
                != old(self).num_public || cs.spec_metrics().num_constraints != old(
                self,
            ).num_constraints) ==> r == Err::<(), CsError>(CsError::TopologyMismatch) && *final(self)
                == *old(self),
            old(self).phase == PipelinePhase::KeysReady && cs.spec_metrics().num_instance_variables
                == old(self).num_public && cs.spec_metrics().num_constraints == old(
                self,
            ).num_constraints ==> {
                &&& (!cs.fully_assigned() ==> r == Err::<(), CsError>(CsError::AssignmentMissing)
                    && *final(self) == *old(self))
                &&& (cs.fully_assigned() && !cs.all_satisfied() ==> r == Err::<(), CsError>(
                    CsError::ConstraintViolation,
                ) && *final(self) == *old(self))
                &&& (cs.fully_assigned() && cs.all_satisfied() ==> r == Ok::<(), CsError>(())
                    && final(self).phase == PipelinePhase::ProofReady && final(self).num_public
                    == old(self).num_public && final(self).num_constraints == old(self).num_constraints)
            },
    {
        if !matches!(self.phase, PipelinePhase::KeysReady) {
            return Err(CsError::TopologyMismatch);
        }
        let m = cs.metrics();
        if m.num_instance_variables != self.num_public || m.num_constraints
            != self.num_constraints {
            return Err(CsError::TopologyMismatch);
        }
        match cs.is_satisfied() {
            Err(e) => Err(e),
            Ok(false) => Err(CsError::ConstraintViolation),
            Ok(true) => {
                self.phase = PipelinePhase::ProofReady;
                Ok(())
            },
        }
    }

    /// Whether a public-input vector may be handed to the backend's
    /// verifier: a proof must exist and the vector must carry exactly one
    /// value per public input, in allocation order.  A mismatch is an
    /// ordinary rejection, never fatal.
    pub fn verify_inputs_admissible(&self, num_inputs: usize) -> (r: bool)
        ensures
            r == (self.phase == PipelinePhase::ProofReady && num_inputs == self.num_public),
    {
        matches!(self.phase, PipelinePhase::ProofReady) && num_inputs == self.num_public
    }
}

} // verus!
