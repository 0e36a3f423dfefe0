use ark_bls12_377::{Bls12_377, Fq, Fr, G1Projective, G2Projective};
use ark_crypto_primitives::crh::{sha256::Sha256, CRHScheme};
use ark_ec::pairing::Pairing;
use ark_ec::{CurveGroup, Group};
use ark_ff::{Field, PrimeField, UniformRand};

use zkgadgets::cs::{ConstraintSystem, CsError, OptGoal, Role};
use zkgadgets::gadgets::bytes::alloc_bytes;
use zkgadgets::gadgets::bytes::enforce_equal_bytes;
use zkgadgets::gadgets::crh::Sha256Gadget;
use zkgadgets::gadgets::emulation::{
    add_emulated, mul_without_reduce, new_witness_emulated, reduce_emulated,
};
use zkgadgets::gadgets::felt::{add_felts, enforce_equal_felts, felt_value, mul_felts, new_constant, new_witness};
use zkgadgets::gadgets::group::{add_g1, alloc_g1, double_g1, enforce_equal_g1, g1_value, G1Point};
use zkgadgets::gadgets::pairing::{pairing_gadget, prepare_g1, prepare_g2, target_value, G2Point};
use zkgadgets::FieldId;

fn fq_limbs(x: Fq) -> Vec<u64> {
    x.into_bigint().0.to_vec()
}

fn fr_limbs(x: Fr) -> Vec<u64> {
    x.into_bigint().0.to_vec()
}

fn g1_point(p: G1Projective) -> G1Point {
    let a = p.into_affine();
    G1Point { x: fq_limbs(a.x), y: fq_limbs(a.y), infinity: a.infinity }
}

fn g2_point(p: G2Projective) -> G2Point {
    let a = p.into_affine();
    G2Point {
        x0: fq_limbs(a.x.c0),
        x1: fq_limbs(a.x.c1),
        y0: fq_limbs(a.y.c0),
        y1: fq_limbs(a.y.c1),
        infinity: a.infinity,
    }
}

/// Reassembles a reduced emulated representation (base-2^32 limbs) into the
/// canonical four-limb form.
fn recompose(limbs: &Vec<u128>) -> Vec<u64> {
    let mut out: Vec<u64> = Vec::new();
    let mut i = 0;
    while i + 1 < limbs.len() {
        out.push((limbs[i] as u64) | ((limbs[i + 1] as u64) << 32));
        i += 2;
    }
    out
}

#[test]
fn field_gadget_add_mul_match_native() {
    let mut rng = ark_std::test_rng();
    let a0 = Fq::rand(&mut rng);
    let b0 = Fq::rand(&mut rng);
    let mut cs = ConstraintSystem::new(FieldId::BlsFq, OptGoal::NoOpt);
    let a = new_witness(&mut cs, Some(fq_limbs(a0))).unwrap();
    let b = new_witness(&mut cs, Some(fq_limbs(b0))).unwrap();
    let s = add_felts(&mut cs, &a, &b, String::from("sum")).unwrap();
    let p = mul_felts(&mut cs, &a, &b, String::from("prod")).unwrap();
    assert_eq!(felt_value(&s).unwrap(), fq_limbs(a0 + b0));
    assert_eq!(felt_value(&p).unwrap(), fq_limbs(a0 * b0));
    let sc = new_constant(&mut cs, fq_limbs(a0 + b0)).unwrap();
    enforce_equal_felts(&mut cs, &s, &sc, String::from("eq")).unwrap();
    assert!(cs.is_satisfied().unwrap());
    cs.finalize();
}

#[test]
fn byte_gadget_equality() {
    let mut cs = ConstraintSystem::new(FieldId::BlsFr, OptGoal::NoOpt);
    let var = alloc_bytes(&mut cs, Role::Private, &vec![2u8; 32]).unwrap();
    let inp = alloc_bytes(&mut cs, Role::Public, &vec![2u8; 32]).unwrap();
    enforce_equal_bytes(&mut cs, &var, &inp).unwrap();
    assert!(cs.is_satisfied().unwrap());
    cs.finalize();
    let m = cs.metrics();
    assert_eq!(m.num_constraints, 32);
    assert_eq!(m.num_instance_variables, 32);
}

#[test]
fn byte_gadget_detects_mismatch() {
    let mut cs = ConstraintSystem::new(FieldId::BlsFr, OptGoal::NoOpt);
    let var = alloc_bytes(&mut cs, Role::Private, &vec![2u8, 3u8]).unwrap();
    let inp = alloc_bytes(&mut cs, Role::Public, &vec![2u8, 4u8]).unwrap();
    enforce_equal_bytes(&mut cs, &var, &inp).unwrap();
    assert_eq!(cs.is_satisfied(), Ok(false));
}

#[test]
fn curve_gadget_add_matches_native_and_double() {
    let mut rng = ark_std::test_rng();
    let a0 = G1Projective::rand(&mut rng);
    let b0 = G1Projective::rand(&mut rng);
    let mut cs = ConstraintSystem::new(FieldId::BlsFq, OptGoal::NoOpt);
    let a = alloc_g1(&mut cs, Role::Private, Some(g1_point(a0))).unwrap();
    let b = alloc_g1(&mut cs, Role::Private, Some(g1_point(b0))).unwrap();
    let sum = add_g1(&mut cs, &a, &b).unwrap();
    let sp = g1_value(&sum).unwrap();
    let native = g1_point(a0 + b0);
    assert_eq!(sp.x, native.x);
    assert_eq!(sp.y, native.y);
    assert_eq!(sp.infinity, native.infinity);
    // Doubling-addition consistency: p + p and p.double() agree.
    let twice = add_g1(&mut cs, &a, &a).unwrap();
    let doubled = double_g1(&mut cs, &a).unwrap();
    enforce_equal_g1(&mut cs, &twice, &doubled).unwrap();
    assert!(cs.is_satisfied().unwrap());
    let tp = g1_value(&twice).unwrap();
    let dp = g1_value(&doubled).unwrap();
    assert_eq!(tp.x, dp.x);
    assert_eq!(tp.y, dp.y);
    assert_eq!(dp.x, g1_point(a0.double()).x);
    cs.finalize();
}

#[test]
fn curve_gadget_identity_is_neutral() {
    let mut rng = ark_std::test_rng();
    let b0 = G1Projective::rand(&mut rng);
    let mut cs = ConstraintSystem::new(FieldId::BlsFq, OptGoal::NoOpt);
    let zero = alloc_g1(
        &mut cs,
        Role::Private,
        Some(G1Point { x: fq_limbs(Fq::from(0u64)), y: fq_limbs(Fq::from(0u64)), infinity: true }),
    )
    .unwrap();
    let b = alloc_g1(&mut cs, Role::Private, Some(g1_point(b0))).unwrap();
    let sum = add_g1(&mut cs, &zero, &b).unwrap();
    let sp = g1_value(&sum).unwrap();
    let native = g1_point(b0);
    assert_eq!(sp.x, native.x);
    assert_eq!(sp.y, native.y);
    assert_eq!(sp.infinity, native.infinity);
}

#[test]
fn pairing_gadget_matches_native() {
    let mut rng = ark_std::test_rng();
    let a0 = G1Projective::rand(&mut rng);
    let b0 = G2Projective::rand(&mut rng);
    let mut cs = ConstraintSystem::new(FieldId::BlsFq, OptGoal::NoOpt);
    let a = alloc_g1(&mut cs, Role::Private, Some(g1_point(a0))).unwrap();
    let b = zkgadgets::gadgets::pairing::alloc_g2(&mut cs, Role::Private, Some(g2_point(b0)))
        .unwrap();
    let pa = prepare_g1(a);
    let pb = prepare_g2(b);
    let t = pairing_gadget(&mut cs, &pa, &pb).unwrap();
    let coeffs = target_value(&t).unwrap();
    let native = Bls12_377::pairing(a0, b0);
    let expected: Vec<Vec<u64>> =
        native.0.to_base_prime_field_elements().map(|c| fq_limbs(c)).collect();
    assert_eq!(coeffs, expected);
    assert!(cs.is_satisfied().unwrap());
}

#[test]
fn sha256_gadget_matches_native_hash() {
    let input = String::from("hello");
    let expected = <Sha256 as CRHScheme>::evaluate(&(), input.as_bytes()).unwrap();
    let known: Vec<u8> = vec![
        0x2c, 0xf2, 0x4d, 0xba, 0x5f, 0xb0, 0xa3, 0x0e, 0x26, 0xe8, 0x3b, 0x2a, 0xc5, 0xb9,
        0xe2, 0x9e, 0x1b, 0x16, 0x1e, 0x5c, 0x1f, 0xa7, 0x42, 0x5e, 0x73, 0x04, 0x33, 0x62,
        0x93, 0x8b, 0x98, 0x24,
    ];
    assert_eq!(expected, known);
    let mut cs = ConstraintSystem::new(FieldId::BlsFr, OptGoal::NoOpt);
    let input_var = alloc_bytes(&mut cs, Role::Private, &input.clone().into_bytes()).unwrap();
    let output_var = alloc_bytes(&mut cs, Role::Public, &expected).unwrap();
    let mut sha = Sha256Gadget::new();
    sha.update(&input_var);
    let digest = sha.finalize(&mut cs).unwrap();
    let got: Vec<u8> = digest.iter().map(|b| b.value.unwrap()).collect();
    assert_eq!(got, expected);
    enforce_equal_bytes(&mut cs, &digest, &output_var).unwrap();
    assert!(cs.is_satisfied().unwrap());
    cs.finalize();
}

#[test]
fn sha256_gadget_all_zero_input() {
    let input = vec![0u8; 5];
    let expected = <Sha256 as CRHScheme>::evaluate(&(), input.as_slice()).unwrap();
    let mut cs = ConstraintSystem::new(FieldId::BlsFr, OptGoal::NoOpt);
    let input_var = alloc_bytes(&mut cs, Role::Private, &input).unwrap();
    let mut sha = Sha256Gadget::new();
    sha.update(&input_var);
    let digest = sha.finalize(&mut cs).unwrap();
    let got: Vec<u8> = digest.iter().map(|b| b.value.unwrap()).collect();
    assert_eq!(got, expected);
}

#[test]
fn emulated_add_matches_native() {
    let mut rng = ark_std::test_rng();
    let x = Fr::rand(&mut rng);
    let y = Fr::rand(&mut rng);
    let mut cs = ConstraintSystem::new(FieldId::BlsFq, OptGoal::NoOpt);
    let a = new_witness_emulated(&mut cs, Some(fr_limbs(x))).unwrap();
    let b = new_witness_emulated(&mut cs, Some(fr_limbs(y))).unwrap();
    let s = add_emulated(&mut cs, &a, &b).unwrap();
    let r = reduce_emulated(&mut cs, &s).unwrap();
    assert_eq!(recompose(&r.limbs.unwrap()), fr_limbs(x + y));
    assert!(cs.is_satisfied().unwrap());
    cs.finalize();
}

#[test]
fn emulated_mul_then_reduce_matches_native() {
    let mut rng = ark_std::test_rng();
    let x = Fr::rand(&mut rng);
    let y = Fr::rand(&mut rng);
    let mut cs = ConstraintSystem::new(FieldId::BlsFq, OptGoal::NoOpt);
    let a = new_witness_emulated(&mut cs, Some(fr_limbs(x))).unwrap();
    let b = new_witness_emulated(&mut cs, Some(fr_limbs(y))).unwrap();
    let m = mul_without_reduce(&mut cs, &a, &b).unwrap();
    let r = reduce_emulated(&mut cs, &m).unwrap();
    assert_eq!(recompose(&r.limbs.unwrap()), fr_limbs(x * y));
    cs.finalize();
}

#[test]
fn emulated_mul_chain_exceeds_capacity() {
    let mut rng = ark_std::test_rng();
    let x = Fr::rand(&mut rng);
    let y = Fr::rand(&mut rng);
    let mut cs = ConstraintSystem::new(FieldId::BlsFq, OptGoal::NoOpt);
    let a = new_witness_emulated(&mut cs, Some(fr_limbs(x))).unwrap();
    let b = new_witness_emulated(&mut cs, Some(fr_limbs(y))).unwrap();
    let m = mul_without_reduce(&mut cs, &a, &b).unwrap();
    // A second unreduced multiplication would let a limb pass the declared
    // capacity: the layer must fail rather than return a wrong value.
    let again = mul_without_reduce(&mut cs, &m, &m);
    assert!(matches!(again, Err(CsError::CapacityExceeded)));
}

#[test]
fn sha256_gadget_symbolic_topology_matches_concrete() {
    let build = |input: Option<Vec<u8>>| -> ConstraintSystem {
        let mut cs = ConstraintSystem::new(FieldId::BlsFr, OptGoal::NoOpt);
        let mut sha = Sha256Gadget::new();
        let input_var = match input {
            Some(bytes) => alloc_bytes(&mut cs, Role::Private, &bytes).unwrap(),
            None => {
                let mut vars = Vec::new();
                for _ in 0..5 {
                    vars.push(
                        zkgadgets::gadgets::bytes::alloc_byte(&mut cs, Role::Private, None)
                            .unwrap(),
                    );
                }
                vars
            },
        };
        sha.update(&input_var);
        let _ = sha.finalize(&mut cs).unwrap();
        cs
    };
    let symbolic = build(None);
    let concrete = build(Some(vec![7u8; 5]));
    assert_eq!(symbolic.metrics(), concrete.metrics());
}
