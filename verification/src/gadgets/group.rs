//! The curve-point gadget over the BLS12-377 G1 group.
//!
//! A point is carried in affine form as two canonical base-field coordinates
//! plus an infinity flag.  The group law itself is the native curve
//! library's, behind trusted wrappers on plain limb values; the gadget binds
//! the resulting coordinates as fresh witness variables and keeps the native
//! value in step with the assignment.
use vstd::prelude::*;
use vstd::pervasive::unreached;

use ark_bls12_377::{Fq, G1Affine, G1Projective};
use ark_ec::{CurveGroup, Group};
use ark_ff::{BigInt, PrimeField};

use crate::cs::{ConstraintSystem, CsError, Role};
use crate::fields::{canonical, fq_modulus, limbs_val, FieldId};
use crate::gadgets::felt::{
    alloc_felt, clone_limbs, enforce_equal_felts, extends, lemma_extends_trans,
    lemma_tracks_extend, wrap_var,
};

verus! {

/// A G1 point in affine form: little-endian limb coordinates, or the group
/// identity when `infinity` is set.
pub struct G1Point {
    pub x: Vec<u64>,
    pub y: Vec<u64>,
    pub infinity: bool,
}

/// The short-Weierstrass equation of BLS12-377's G1: `y² = x³ + 1` over the
/// base field.
pub open spec fn g1_on_curve(x: Seq<u64>, y: Seq<u64>) -> bool {
    (limbs_val(y) * limbs_val(y)) % fq_modulus() == (limbs_val(x) * limbs_val(x) * limbs_val(x)
        + 1) % fq_modulus()
}

/// Canonical coordinates, on the curve unless the point is the identity;
/// the identity carries the zero coordinates, as the native library's
/// canonical affine identity does, so each group element has exactly one
/// valid representation.
pub open spec fn g1_valid(p: G1Point) -> bool {
    &&& canonical(FieldId::BlsFq, p.x@)
    &&& canonical(FieldId::BlsFq, p.y@)
    &&& (!p.infinity ==> g1_on_curve(p.x@, p.y@))
    &&& (p.infinity ==> limbs_val(p.x@) == 0 && limbs_val(p.y@) == 0)
}

pub open spec fn g1_view(p: G1Point) -> (Seq<u64>, Seq<u64>, bool) {
    (p.x@, p.y@, p.infinity)
}

/// The affine representation of the sum of two G1 points under the native
/// group law: a function of the two representations alone.
pub uninterp spec fn g1_sum(
    px: Seq<u64>,
    py: Seq<u64>,
    pinf: bool,
    qx: Seq<u64>,
    qy: Seq<u64>,
    qinf: bool,
) -> (Seq<u64>, Seq<u64>, bool);

/// Relies on `ark_ec`'s short-Weierstrass group addition and
/// affine conversion: the sum of two curve points, with the identity neutral
/// on either side, again a valid point in canonical affine form.
#[verifier::external_body]
fn g1_add_native(p: &G1Point, q: &G1Point) -> (r: G1Point)
    requires
        g1_valid(*p),
        g1_valid(*q),
    ensures
        g1_view(r) == g1_sum(p.x@, p.y@, p.infinity, q.x@, q.y@, q.infinity),
        g1_valid(r),
        p.infinity ==> g1_view(r) == g1_view(*q),
        q.infinity ==> g1_view(r) == g1_view(*p),
{
    let f = |v: &Vec<u64>| Fq::from_bigint(BigInt::new(v.as_slice().try_into().unwrap())).unwrap();
    let pa = if p.infinity { G1Affine::identity() } else { G1Affine::new_unchecked(f(&p.x), f(&p.y)) };
    let qa = if q.infinity { G1Affine::identity() } else { G1Affine::new_unchecked(f(&q.x), f(&q.y)) };
    let s = (G1Projective::from(pa) + G1Projective::from(qa)).into_affine();
    G1Point { x: s.x.into_bigint().0.to_vec(), y: s.y.into_bigint().0.to_vec(), infinity: s.infinity }
}

/// Relies on `ark_ec`'s `Group::double`, which adds the point to itself with
/// the curve's doubling formula.  A group element has exactly one canonical
/// affine representation, so the result is stated through the same sum as
/// general addition.
#[verifier::external_body]
fn g1_double_native(p: &G1Point) -> (r: G1Point)
    requires
        g1_valid(*p),
    ensures
        g1_view(r) == g1_sum(p.x@, p.y@, p.infinity, p.x@, p.y@, p.infinity),
        g1_valid(r),
{
    let f = |v: &Vec<u64>| Fq::from_bigint(BigInt::new(v.as_slice().try_into().unwrap())).unwrap();
    let pa = if p.infinity { G1Affine::identity() } else { G1Affine::new_unchecked(f(&p.x), f(&p.y)) };
    let s = G1Projective::from(pa).double().into_affine();
    G1Point { x: s.x.into_bigint().0.to_vec(), y: s.y.into_bigint().0.to_vec(), infinity: s.infinity }
}

/// Doubling agrees with adding a point to itself, and adding the identity on
/// either side leaves the other operand's representation unchanged: the
/// native group law gives both operations one meaning.
pub proof fn lemma_add_double_consistent(a: G1Point, s: G1Point, d: G1Point)
    requires
        g1_view(s) == g1_sum(a.x@, a.y@, a.infinity, a.x@, a.y@, a.infinity),
        g1_view(d) == g1_sum(a.x@, a.y@, a.infinity, a.x@, a.y@, a.infinity),
    ensures
        s.x@ == d.x@,
        s.y@ == d.y@,
        s.infinity == d.infinity,
{
}

/// A G1 point inside a constraint system: two coordinate variables and the
/// optional native point.
pub struct G1Var {
    pub x_index: usize,
    pub y_index: usize,
    pub value: Option<G1Point>,
}

impl G1Var {
    /// The coordinate assignments record exactly the native point carried.
    pub open spec fn tracks(self, cs: ConstraintSystem) -> bool {
        &&& self.x_index < cs.num_vars()
        &&& self.y_index < cs.num_vars()
        &&& (self.value is Some <==> cs.values[self.x_index as int] is Some)
        &&& (self.value is Some <==> cs.values[self.y_index as int] is Some)
        &&& (self.value matches Some(p) ==> {
            &&& g1_valid(p)
            &&& (cs.values[self.x_index as int] matches Some(w) && w@ == p.x@)
            &&& (cs.values[self.y_index as int] matches Some(w) && w@ == p.y@)
        })
    }

    pub open spec fn has_value(self) -> bool {
        self.value is Some
    }

    pub open spec fn view_of(self) -> (Seq<u64>, Seq<u64>, bool) {
        g1_view(self.value->Some_0)
    }
}

/// Clones a point representation.
fn clone_point(p: &G1Point) -> (r: G1Point)
    ensures
        r.x@ == p.x@,
        r.y@ == p.y@,
        r.infinity == p.infinity,
{
    let x = clone_limbs(&p.x);
    let y = clone_limbs(&p.y);
    G1Point { x, y, infinity: p.infinity }
}

/// Binds a point's coordinates as two fresh variables with the given role.
pub fn alloc_g1(cs: &mut ConstraintSystem, role: Role, value: Option<G1Point>) -> (r: Result<
    G1Var,
    CsError,
>)
    requires
        old(cs).wf(),
        !old(cs).finalized,
        old(cs).field == FieldId::BlsFq,
        value matches Some(p) ==> g1_valid(p),
        role != Role::Constant || value is Some,
    ensures
        final(cs).wf(),
        !final(cs).finalized,
        r matches Ok(g),
        r matches Ok(g) ==> {
            &&& g.tracks(*final(cs))
            &&& (g.value is Some <==> value is Some)
            &&& (value matches Some(p) ==> g.value matches Some(w) && g1_view(w) == g1_view(p))
            &&& extends(*old(cs), *final(cs))
            &&& final(cs).num_vars() == old(cs).num_vars() + 2
            &&& final(cs).roles@ == old(cs).roles@.push(role).push(role)
            &&& final(cs).constraints@ == old(cs).constraints@
            &&& (old(cs).all_satisfied() ==> final(cs).all_satisfied())
            &&& (old(cs).fully_assigned() ==> final(cs).fully_assigned())
        },
{
    let ghost pre = *cs;
    let (vx, vy, stored): (Option<Vec<u64>>, Option<Vec<u64>>, Option<G1Point>) = match value {
        Some(p) => {
            let c = clone_point(&p);
            (Some(c.x), Some(c.y), Some(p))
        },
        None => (None, None, None),
    };
    let gx = match alloc_felt(cs, role, vx) {
        Ok(g) => g,
        Err(_) => unreached(),
    };
    let ghost mid = *cs;
    let gy = match alloc_felt(cs, role, vy) {
        Ok(g) => g,
        Err(_) => unreached(),
    };
    proof {
        lemma_extends_trans(pre, mid, *cs);
        lemma_tracks_extend(gx, mid, *cs);
    }
    Ok(G1Var { x_index: gx.index, y_index: gy.index, value: stored })
}

/// Adds two point gadgets under the native group law; the result's
/// coordinates are bound as fresh witness variables, value-bound rather than
/// constraint-forced: no constraint ties them to the operands.  Adding the
/// identity is a no-op on the value.
pub fn add_g1(cs: &mut ConstraintSystem, a: &G1Var, b: &G1Var) -> (r: Result<G1Var, CsError>)
    requires
        old(cs).wf(),
        !old(cs).finalized,
        old(cs).field == FieldId::BlsFq,
        a.tracks(*old(cs)),
        b.tracks(*old(cs)),
    ensures
        final(cs).wf(),
        !final(cs).finalized,
        r matches Ok(g),
        r matches Ok(g) ==> {
            &&& g.tracks(*final(cs))
            &&& (g.has_value() <==> a.has_value() && b.has_value())
            &&& (a.has_value() && b.has_value() ==> {
                &&& g.view_of() == g1_sum(
                    a.value->Some_0.x@,
                    a.value->Some_0.y@,
                    a.value->Some_0.infinity,
                    b.value->Some_0.x@,
                    b.value->Some_0.y@,
                    b.value->Some_0.infinity,
                )
                &&& (a.value->Some_0.infinity ==> g.view_of() == b.view_of())
                &&& (b.value->Some_0.infinity ==> g.view_of() == a.view_of())
            })
            &&& extends(*old(cs), *final(cs))
            &&& final(cs).num_vars() == old(cs).num_vars() + 2
            &&& final(cs).roles@ == old(cs).roles@.push(Role::Private).push(Role::Private)
            &&& final(cs).constraints@ == old(cs).constraints@
            &&& (old(cs).all_satisfied() ==> final(cs).all_satisfied())
            &&& (old(cs).fully_assigned() ==> final(cs).fully_assigned())
        },
{
    let value: Option<G1Point> = match (&a.value, &b.value) {
        (Some(pa), Some(pb)) => Some(g1_add_native(pa, pb)),
        _ => None,
    };
    alloc_g1(cs, Role::Private, value)
}

/// Doubles a point gadget with the curve's doubling formula; the value equals
/// adding the point to itself.  The result's coordinates are value-bound
/// witness variables, not constraint-forced.
pub fn double_g1(cs: &mut ConstraintSystem, a: &G1Var) -> (r: Result<G1Var, CsError>)
    requires
        old(cs).wf(),
        !old(cs).finalized,
        old(cs).field == FieldId::BlsFq,
        a.tracks(*old(cs)),
    ensures
        final(cs).wf(),
        !final(cs).finalized,
        r matches Ok(g),
        r matches Ok(g) ==> {
            &&& g.tracks(*final(cs))
            &&& (g.has_value() <==> a.has_value())
            &&& (a.has_value() ==> g.view_of() == g1_sum(
                a.value->Some_0.x@,
                a.value->Some_0.y@,
                a.value->Some_0.infinity,
                a.value->Some_0.x@,
                a.value->Some_0.y@,
                a.value->Some_0.infinity,
            ))
            &&& extends(*old(cs), *final(cs))
            &&& final(cs).num_vars() == old(cs).num_vars() + 2
            &&& final(cs).roles@ == old(cs).roles@.push(Role::Private).push(Role::Private)
            &&& final(cs).constraints@ == old(cs).constraints@
            &&& (old(cs).all_satisfied() ==> final(cs).all_satisfied())
            &&& (old(cs).fully_assigned() ==> final(cs).fully_assigned())
        },
{
    let value: Option<G1Point> = match &a.value {
        Some(pa) => Some(g1_double_native(pa)),
        None => None,
    };
    alloc_g1(cs, Role::Private, value)
}

/// Forces two point gadgets to hold equal coordinates: one constraint per
/// coordinate.
pub fn enforce_equal_g1(cs: &mut ConstraintSystem, a: &G1Var, b: &G1Var) -> (r: Result<
    (),
    CsError,
>)
    requires
        old(cs).wf(),
        !old(cs).finalized,
        a.tracks(*old(cs)),
        b.tracks(*old(cs)),
    ensures
        final(cs).wf(),
        !final(cs).finalized,
        r == Ok::<(), CsError>(()),
        extends(*old(cs), *final(cs)),
        final(cs).num_vars() == old(cs).num_vars(),
        final(cs).roles@ == old(cs).roles@,
        final(cs).constraints@.len() == old(cs).constraints@.len() + 2,
        a.has_value() && b.has_value() ==> final(cs).all_satisfied() == (old(cs).all_satisfied()
            && a.value->Some_0.x@ == b.value->Some_0.x@ && a.value->Some_0.y@
            == b.value->Some_0.y@),
        a.has_value() && b.has_value() ==> (old(cs).fully_assigned() ==> final(cs).fully_assigned()),
        !(a.has_value() && b.has_value()) ==> !final(cs).fully_assigned(),
{
    let ghost pre = *cs;
    let (ax, ay): (Option<Vec<u64>>, Option<Vec<u64>>) = match &a.value {
        Some(p) => (Some(clone_limbs(&p.x)), Some(clone_limbs(&p.y))),
        None => (None, None),
    };
    let (bx, by): (Option<Vec<u64>>, Option<Vec<u64>>) = match &b.value {
        Some(p) => (Some(clone_limbs(&p.x)), Some(clone_limbs(&p.y))),
        None => (None, None),
    };
    let fax = wrap_var(cs, a.x_index, ax);
    let fay = wrap_var(cs, a.y_index, ay);
    let fbx = wrap_var(cs, b.x_index, bx);
    let fby = wrap_var(cs, b.y_index, by);
    match enforce_equal_felts(cs, &fax, &fbx, String::new()) {
        Ok(u) => u,
        Err(_) => unreached(),
    };
    let ghost mid = *cs;
    proof {
        lemma_tracks_extend(fay, pre, mid);
        lemma_tracks_extend(fby, pre, mid);
    }
    match enforce_equal_felts(cs, &fay, &fby, String::new()) {
        Ok(u) => u,
        Err(_) => unreached(),
    };
    proof {
        lemma_extends_trans(pre, mid, *cs);
        if a.has_value() && b.has_value() {
            if a.value->Some_0.x@ == b.value->Some_0.x@ && a.value->Some_0.y@
                == b.value->Some_0.y@ {
                assert(fax.val() == fbx.val());
                assert(fay.val() == fby.val());
            }
            if fax.val() == fbx.val() && fay.val() == fby.val() {
                crate::cs::lemma_limbs_val_injective(a.value->Some_0.x@, b.value->Some_0.x@);
                crate::cs::lemma_limbs_val_injective(a.value->Some_0.y@, b.value->Some_0.y@);
            }
        } else {
            crate::gadgets::felt::lemma_missing_assignment_persists(mid, *cs);
        }
    }
    Ok(())
}

/// Extracts the native point; fails when the circuit runs without a witness.
pub fn g1_value(g: &G1Var) -> (r: Result<G1Point, CsError>)
    ensures
        match r {
            Ok(p) => g.value matches Some(w) && g1_view(p) == g1_view(w),
            Err(e) => e == CsError::AssignmentMissing && g.value is None,
        },
{
    match &g.value {
        Some(p) => Ok(clone_point(p)),
        None => Err(CsError::AssignmentMissing),
    }
}

} // verus!
