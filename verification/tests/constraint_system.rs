use ark_bls12_377::Fr;
use ark_ff::PrimeField;

use zkgadgets::cs::{ConstraintSystem, CsError, LinComb, OptGoal, Role};
use zkgadgets::gadgets::felt::{add_felts, enforce_equal_felts, felt_value, mul_felts, new_input, new_witness};
use zkgadgets::FieldId;

fn fr_limbs(x: u64) -> Vec<u64> {
    Fr::from(x).into_bigint().0.to_vec()
}

#[test]
fn finalize_twice_reports_identical_metrics() {
    let mut cs = ConstraintSystem::new(FieldId::BlsFr, OptGoal::NoOpt);
    let a = new_witness(&mut cs, Some(fr_limbs(5))).unwrap();
    let b = new_witness(&mut cs, Some(fr_limbs(6))).unwrap();
    let _ = add_felts(&mut cs, &a, &b, String::from("sum")).unwrap();
    cs.finalize();
    let m1 = cs.metrics();
    cs.finalize();
    let m2 = cs.metrics();
    assert_eq!(m1, m2);
}

#[test]
fn scenario_three_plus_four_and_three_times_four() {
    let mut cs = ConstraintSystem::new(FieldId::BlsFr, OptGoal::NoOpt);
    let a = new_witness(&mut cs, Some(fr_limbs(3))).unwrap();
    let b = new_witness(&mut cs, Some(fr_limbs(4))).unwrap();
    let s = add_felts(&mut cs, &a, &b, String::from("a plus b")).unwrap();
    let p = mul_felts(&mut cs, &a, &b, String::from("a times b")).unwrap();
    assert_eq!(felt_value(&s).unwrap(), fr_limbs(7));
    assert_eq!(felt_value(&p).unwrap(), fr_limbs(12));
    assert!(cs.is_satisfied().unwrap());
    cs.finalize();
    let m = cs.metrics();
    // One linear constraint for the sum, one multiplicative for the product:
    // a fixed, reproducible count for this circuit shape.
    assert_eq!(m.num_constraints, 2);
    assert_eq!(m.num_witness_variables, 4);
    assert_eq!(m.num_instance_variables, 0);
}

#[test]
fn allocate_after_finalize_fails() {
    let mut cs = ConstraintSystem::new(FieldId::BlsFr, OptGoal::NoOpt);
    cs.finalize();
    let r = cs.allocate(Role::Private, Some(fr_limbs(1)));
    assert_eq!(r, Err(CsError::AlreadyFinalized));
}

#[test]
fn constant_without_value_fails() {
    let mut cs = ConstraintSystem::new(FieldId::BlsFr, OptGoal::NoOpt);
    let r = cs.allocate(Role::Constant, None);
    assert_eq!(r, Err(CsError::AssignmentMissing));
}

#[test]
fn missing_witness_reported_by_is_satisfied() {
    let mut cs = ConstraintSystem::new(FieldId::BlsFr, OptGoal::NoOpt);
    let a = new_witness(&mut cs, None).unwrap();
    let b = new_witness(&mut cs, Some(fr_limbs(4))).unwrap();
    let _ = add_felts(&mut cs, &a, &b, String::from("sum")).unwrap();
    assert_eq!(cs.is_satisfied(), Err(CsError::AssignmentMissing));
}

#[test]
fn unequal_values_violate_equality_constraint() {
    let mut cs = ConstraintSystem::new(FieldId::BlsFr, OptGoal::NoOpt);
    let a = new_witness(&mut cs, Some(fr_limbs(3))).unwrap();
    let b = new_input(&mut cs, Some(fr_limbs(4))).unwrap();
    enforce_equal_felts(&mut cs, &a, &b, String::from("eq")).unwrap();
    assert_eq!(cs.is_satisfied(), Ok(false));
}

#[test]
fn weight_goal_drops_trivial_constraints_on_finalize() {
    let mut cs = ConstraintSystem::new(FieldId::BlsFr, OptGoal::Weight);
    let a = new_witness(&mut cs, Some(fr_limbs(3))).unwrap();
    let b = new_witness(&mut cs, Some(fr_limbs(3))).unwrap();
    enforce_equal_felts(&mut cs, &a, &b, String::from("eq")).unwrap();
    cs.enforce(
        LinComb { terms: Vec::new() },
        LinComb { terms: Vec::new() },
        LinComb { terms: Vec::new() },
        String::from("empty"),
    )
    .unwrap();
    assert_eq!(cs.metrics().num_constraints, 2);
    assert!(cs.is_satisfied().unwrap());
    cs.finalize();
    assert_eq!(cs.metrics().num_constraints, 1);
    assert!(cs.is_satisfied().unwrap());
}

#[test]
fn enforce_after_finalize_fails() {
    let mut cs = ConstraintSystem::new(FieldId::BlsFr, OptGoal::NoOpt);
    cs.finalize();
    let r = cs.enforce(
        LinComb { terms: Vec::new() },
        LinComb { terms: Vec::new() },
        LinComb { terms: Vec::new() },
        String::from("late"),
    );
    assert_eq!(r, Err(CsError::AlreadyFinalized));
}

#[test]
fn symbolic_and_concrete_evaluation_share_one_topology() {
    // The same circuit-building code, run once without a witness and once
    // with one, must produce identical variable and constraint counts.
    let build = |with_witness: bool| -> ConstraintSystem {
        let value = |x: u64| if with_witness { Some(fr_limbs(x)) } else { None };
        let mut cs = ConstraintSystem::new(FieldId::BlsFr, OptGoal::NoOpt);
        let a = new_witness(&mut cs, value(3)).unwrap();
        let b = new_witness(&mut cs, value(4)).unwrap();
        let c = new_input(&mut cs, value(12)).unwrap();
        let p = mul_felts(&mut cs, &a, &b, String::from("a times b")).unwrap();
        enforce_equal_felts(&mut cs, &p, &c, String::from("product is public")).unwrap();
        cs
    };
    let symbolic = build(false);
    let concrete = build(true);
    assert_eq!(symbolic.metrics(), concrete.metrics());
    assert_eq!(symbolic.is_satisfied(), Err(CsError::AssignmentMissing));
    assert_eq!(concrete.is_satisfied(), Ok(true));
}

#[test]
fn constant_addition_is_constraint_free() {
    let mut cs = ConstraintSystem::new(FieldId::BlsFr, OptGoal::NoOpt);
    let w = new_witness(&mut cs, Some(fr_limbs(3))).unwrap();
    let c = zkgadgets::gadgets::felt::new_constant(&mut cs, fr_limbs(4)).unwrap();
    let before = cs.metrics();
    // Adding a compile-time constant folds into the offset: no variable and
    // no constraint is recorded, on either operand order.
    let s1 = add_felts(&mut cs, &w, &c, String::from("w plus c")).unwrap();
    let s2 = add_felts(&mut cs, &c, &w, String::from("c plus w")).unwrap();
    let s3 = add_felts(&mut cs, &c, &c, String::from("c plus c")).unwrap();
    let after = cs.metrics();
    assert_eq!(before, after);
    assert_eq!(zkgadgets::gadgets::felt::felt_value(&s1).unwrap(), fr_limbs(7));
    assert_eq!(zkgadgets::gadgets::felt::felt_value(&s2).unwrap(), fr_limbs(7));
    assert_eq!(zkgadgets::gadgets::felt::felt_value(&s3).unwrap(), fr_limbs(8));
    // The folded sum still takes part in ordinary constraints.
    let p = mul_felts(&mut cs, &s1, &w, String::from("sum times w")).unwrap();
    assert_eq!(zkgadgets::gadgets::felt::felt_value(&p).unwrap(), fr_limbs(21));
    assert!(cs.is_satisfied().unwrap());
}

#[test]
fn missing_witness_surfaces_through_equality() {
    let mut cs = ConstraintSystem::new(FieldId::BlsFr, OptGoal::NoOpt);
    let a = new_witness(&mut cs, None).unwrap();
    let b = new_input(&mut cs, Some(fr_limbs(4))).unwrap();
    enforce_equal_felts(&mut cs, &a, &b, String::from("eq")).unwrap();
    assert_eq!(cs.is_satisfied(), Err(CsError::AssignmentMissing));
}
