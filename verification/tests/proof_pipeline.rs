use ark_bls12_377::{Bls12_377, Fr};
use ark_ff::{BigInt, PrimeField};
use ark_relations::r1cs::{
    ConstraintSynthesizer, ConstraintSystemRef, LinearCombination, SynthesisError, Variable,
};
use ark_snark::{CircuitSpecificSetupSNARK, SNARK};
use ark_std::rand::{RngCore, SeedableRng};

use zkgadgets::cs::{ConstraintSystem, CsError, OptGoal, Role};
use zkgadgets::gadgets::felt::{enforce_equal_felts, mul_felts, new_input, new_witness};
use zkgadgets::pipeline::{PipelinePhase, ProofPipeline};
use zkgadgets::FieldId;

fn fr_limbs(x: u64) -> Vec<u64> {
    Fr::from(x).into_bigint().0.to_vec()
}

fn fr_of(limbs: &Vec<u64>) -> Fr {
    let arr: [u64; 4] = limbs.as_slice().try_into().unwrap();
    Fr::from_bigint(BigInt::new(arr)).unwrap()
}

/// Replays a library constraint system into the backend's synthesis
/// interface: same variables (public inputs in allocation order), same
/// constraints, same assignment.
struct Replay {
    cs: ConstraintSystem,
}

impl ConstraintSynthesizer<Fr> for Replay {
    fn generate_constraints(self, ark_cs: ConstraintSystemRef<Fr>) -> Result<(), SynthesisError> {
        let mut vars: Vec<Variable> = Vec::new();
        vars.push(Variable::One);
        for i in 1..self.cs.roles.len() {
            let value = self.cs.values[i].clone();
            let get = move || {
                value.as_ref().map(|v| fr_of(v)).ok_or(SynthesisError::AssignmentMissing)
            };
            let v = match self.cs.roles[i] {
                Role::Public => ark_cs.new_input_variable(get)?,
                _ => ark_cs.new_witness_variable(get)?,
            };
            vars.push(v);
        }
        for c in &self.cs.constraints {
            let mut lcs: Vec<LinearCombination<Fr>> = Vec::new();
            for lc in [&c.a, &c.b, &c.c] {
                let mut out = LinearCombination::<Fr>::zero();
                for t in &lc.terms {
                    out = out + (fr_of(&t.coeff), vars[t.var]);
                }
                lcs.push(out);
            }
            let lc_c = lcs.pop().unwrap();
            let lc_b = lcs.pop().unwrap();
            let lc_a = lcs.pop().unwrap();
            ark_cs.enforce_constraint(lc_a, lc_b, lc_c)?;
        }
        Ok(())
    }
}

/// The product circuit: private a and b, public c, constrained to c = a·b.
fn product_circuit(a: u64, b: u64, c: u64) -> ConstraintSystem {
    let mut cs = ConstraintSystem::new(FieldId::BlsFr, OptGoal::NoOpt);
    let av = new_witness(&mut cs, Some(fr_limbs(a))).unwrap();
    let bv = new_witness(&mut cs, Some(fr_limbs(b))).unwrap();
    let cv = new_input(&mut cs, Some(fr_limbs(c))).unwrap();
    let pv = mul_felts(&mut cs, &av, &bv, String::from("a times b")).unwrap();
    enforce_equal_felts(&mut cs, &pv, &cv, String::from("product is public")).unwrap();
    cs
}

#[test]
fn groth16_end_to_end_accepts_and_rejects() {
    let mut rng = ark_std::rand::rngs::StdRng::seed_from_u64(ark_std::test_rng().next_u64());

    let setup_cs = product_circuit(0, 0, 0);
    let mut pipeline = ProofPipeline::new();
    pipeline.accept_setup(&setup_cs).unwrap();
    let (pk, vk) = Groth16Backend::setup(Replay { cs: setup_cs }, &mut rng).unwrap();

    let prove_cs = product_circuit(3, 4, 12);
    pipeline.accept_prove(&prove_cs).unwrap();
    assert!(matches!(pipeline.phase, PipelinePhase::ProofReady));
    let proof = Groth16Backend::prove(&pk, Replay { cs: prove_cs }, &mut rng).unwrap();

    assert!(pipeline.verify_inputs_admissible(1));
    assert!(!pipeline.verify_inputs_admissible(2));
    assert!(Groth16Backend::verify(&vk, &[Fr::from(12u64)], &proof).unwrap());

    // One differing public input must be rejected.
    assert!(!Groth16Backend::verify(&vk, &[Fr::from(13u64)], &proof).unwrap());

    // A tampered proof must be rejected, without a crash.
    let tampered = ark_groth16::Proof::<Bls12_377> { a: proof.c, b: proof.b.clone(), c: proof.a };
    assert!(!Groth16Backend::verify(&vk, &[Fr::from(12u64)], &tampered).unwrap());
}

type Groth16Backend = ark_groth16::Groth16<Bls12_377>;

#[test]
fn pipeline_rejects_out_of_order_phases() {
    let cs = product_circuit(3, 4, 12);
    let mut pipeline = ProofPipeline::new();
    assert_eq!(pipeline.accept_prove(&cs), Err(CsError::TopologyMismatch));
    pipeline.accept_setup(&cs).unwrap();
    assert_eq!(pipeline.accept_setup(&cs), Err(CsError::TopologyMismatch));
}

#[test]
fn pipeline_rejects_unsatisfied_witness() {
    let setup_cs = product_circuit(0, 0, 0);
    let mut pipeline = ProofPipeline::new();
    pipeline.accept_setup(&setup_cs).unwrap();
    let bad = product_circuit(3, 4, 11);
    assert_eq!(pipeline.accept_prove(&bad), Err(CsError::ConstraintViolation));
}

#[test]
fn pipeline_rejects_changed_topology() {
    let setup_cs = product_circuit(0, 0, 0);
    let mut pipeline = ProofPipeline::new();
    pipeline.accept_setup(&setup_cs).unwrap();
    let mut other = product_circuit(3, 4, 12);
    let a = new_witness(&mut other, Some(fr_limbs(1))).unwrap();
    let b = new_witness(&mut other, Some(fr_limbs(1))).unwrap();
    let _ = mul_felts(&mut other, &a, &b, String::from("extra")).unwrap();
    assert_eq!(pipeline.accept_prove(&other), Err(CsError::TopologyMismatch));
}
