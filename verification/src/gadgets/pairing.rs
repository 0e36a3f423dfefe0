//! The pairing gadget: the bilinear map from (G1, G2) into the degree-twelve
//! extension of the base field.
//!
//! Pairing evaluation mirrors the native two-phase algorithm: each group
//! element is first prepared, then the pairing is taken.  The native value is
//! computed by the curve library behind a trusted wrapper on plain limb
//! values; the twelve coefficients of the target-field result are bound as
//! fresh witness variables.
use vstd::prelude::*;
use vstd::pervasive::unreached;

use ark_bls12_377::{Bls12_377, Fq, Fq2, G1Affine, G2Affine};
use ark_ec::pairing::Pairing;
use ark_ff::{BigInt, Field, PrimeField};

use crate::cs::{ConstraintSystem, CsError, Role};
use crate::fields::{canonical, fq_modulus, limbs_val, FieldId};
use crate::gadgets::felt::{
    alloc_felt, clone_limbs, enforce_equal_felts, extends, lemma_extends_trans,
    lemma_tracks_extend, roles_after, wrap_var,
};
use crate::gadgets::group::{g1_valid, G1Point, G1Var};

verus! {

/// A G2 point in affine form over the quadratic extension: each coordinate
/// is a pair of canonical base-field limb vectors.
pub struct G2Point {
    pub x0: Vec<u64>,
    pub x1: Vec<u64>,
    pub y0: Vec<u64>,
    pub y1: Vec<u64>,
    pub infinity: bool,
}

/// Multiplication in the quadratic extension, whose non-residue is `-5`:
/// `(a0 + a1·u)(b0 + b1·u)` with `u² = -5`.
pub open spec fn fq2_mul(a0: nat, a1: nat, b0: nat, b1: nat) -> (nat, nat) {
    (
        (((a0 * b0 + ((fq_modulus() - 5) as nat) * (a1 * b1)) % fq_modulus()) as nat),
        ((a0 * b1 + a1 * b0) % fq_modulus()),
    )
}

/// The constant coefficient of the G2 curve equation `y² = x³ + b`, whose
/// value is `b / u` for the G1 coefficient `b = 1`.
pub open spec fn g2_coeff_b() -> (nat, nat) {
    (
        0,
        155198655607781456406391640216936120121836107652948796323930557600032281009004493664981332883744016074664192874906nat,
    )
}

/// The short-Weierstrass equation of BLS12-377's G2 over the quadratic
/// extension.
pub open spec fn g2_on_curve(x0: nat, x1: nat, y0: nat, y1: nat) -> bool {
    {
        let y2 = fq2_mul(y0, y1, y0, y1);
        let x2 = fq2_mul(x0, x1, x0, x1);
        let x3 = fq2_mul(x2.0, x2.1, x0, x1);
        &&& y2.0 == (x3.0 + g2_coeff_b().0) % fq_modulus()
        &&& y2.1 == (x3.1 + g2_coeff_b().1) % fq_modulus()
    }
}

/// Canonical coordinates, on the curve unless the point is the identity.
pub open spec fn g2_valid(p: G2Point) -> bool {
    &&& canonical(FieldId::BlsFq, p.x0@)
    &&& canonical(FieldId::BlsFq, p.x1@)
    &&& canonical(FieldId::BlsFq, p.y0@)
    &&& canonical(FieldId::BlsFq, p.y1@)
    &&& (!p.infinity ==> g2_on_curve(
        limbs_val(p.x0@),
        limbs_val(p.x1@),
        limbs_val(p.y0@),
        limbs_val(p.y1@),
    ))
}

/// The twelve base-field coefficients of a target-field element, in the
/// native library's coefficient order.
pub open spec fn coeffs_view(v: Seq<Vec<u64>>) -> Seq<Seq<u64>> {
    v.map_values(|x: Vec<u64>| x@)
}

pub open spec fn coeffs_canonical(s: Seq<Seq<u64>>) -> bool {
    s.len() == 12 && forall|i: int| 0 <= i < s.len() ==> canonical(FieldId::BlsFq, #[trigger] s[i])
}

/// The coefficients of the native bilinear pairing of a G1 and a G2 point: a
/// function of the two representations alone.
pub uninterp spec fn pairing_of(
    px: Seq<u64>,
    py: Seq<u64>,
    pinf: bool,
    qx0: Seq<u64>,
    qx1: Seq<u64>,
    qy0: Seq<u64>,
    qy1: Seq<u64>,
    qinf: bool,
) -> Seq<Seq<u64>>;

/// Relies on `ark_ec`'s `Pairing::pairing` for BLS12-377 (Miller loop with
/// prepared points, then final exponentiation), and on `ark_ff`'s
/// `to_base_prime_field_elements` for the coefficient decomposition of the
/// target-field result.
#[verifier::external_body]
fn pairing_native(p: &G1Point, q: &G2Point) -> (r: Vec<Vec<u64>>)
    requires
        g1_valid(*p),
        g2_valid(*q),
    ensures
        coeffs_view(r@) == pairing_of(p.x@, p.y@, p.infinity, q.x0@, q.x1@, q.y0@, q.y1@, q.infinity),
        coeffs_canonical(coeffs_view(r@)),
{
    let f = |v: &Vec<u64>| Fq::from_bigint(BigInt::new(v.as_slice().try_into().unwrap())).unwrap();
    let pa = if p.infinity { G1Affine::identity() } else { G1Affine::new_unchecked(f(&p.x), f(&p.y)) };
    let qa = if q.infinity { G2Affine::identity() } else {
        G2Affine::new_unchecked(Fq2::new(f(&q.x0), f(&q.x1)), Fq2::new(f(&q.y0), f(&q.y1)))
    };
    let out = Bls12_377::pairing(pa, qa);
    out.0.to_base_prime_field_elements().map(|c| c.into_bigint().0.to_vec()).collect()
}

/// A prepared G1 element: the pairing-friendly precomputation happens inside
/// the native pairing call; at the gadget level preparation fixes the operand.
pub struct PreparedG1Var {
    pub inner: G1Var,
}

/// A prepared G2 element.
pub struct PreparedG2Var {
    pub inner: G2Var,
}

/// A G2 point inside a constraint system: four coordinate variables and the
/// optional native point.
pub struct G2Var {
    pub x0_index: usize,
    pub x1_index: usize,
    pub y0_index: usize,
    pub y1_index: usize,
    pub value: Option<G2Point>,
}

impl G2Var {
    pub open spec fn tracks(self, cs: ConstraintSystem) -> bool {
        &&& self.x0_index < cs.num_vars()
        &&& self.x1_index < cs.num_vars()
        &&& self.y0_index < cs.num_vars()
        &&& self.y1_index < cs.num_vars()
        &&& (self.value is Some <==> cs.values[self.x0_index as int] is Some)
        &&& (self.value matches Some(p) ==> {
            &&& g2_valid(p)
            &&& (cs.values[self.x0_index as int] matches Some(w) && w@ == p.x0@)
            &&& (cs.values[self.x1_index as int] matches Some(w) && w@ == p.x1@)
            &&& (cs.values[self.y0_index as int] matches Some(w) && w@ == p.y0@)
            &&& (cs.values[self.y1_index as int] matches Some(w) && w@ == p.y1@)
        })
    }

    pub open spec fn has_value(self) -> bool {
        self.value is Some
    }
}

/// A target-field element inside a constraint system: twelve coefficient
/// variables and the optional native coefficients.
pub struct TargetVar {
    pub indices: Vec<usize>,
    pub value: Option<Vec<Vec<u64>>>,
}

impl TargetVar {
    pub open spec fn tracks(self, cs: ConstraintSystem) -> bool {
        &&& self.indices@.len() == 12
        &&& forall|i: int| 0 <= i < 12 ==> (#[trigger] self.indices@[i]) < cs.num_vars()
        &&& (self.value is Some ==> (forall|i: int|
            0 <= i < 12 ==> cs.values[#[trigger] self.indices@[i] as int] is Some))
        &&& (self.value is None ==> (forall|i: int|
            0 <= i < 12 ==> cs.values[#[trigger] self.indices@[i] as int] is None))
        &&& (self.value matches Some(v) ==> {
            &&& coeffs_canonical(coeffs_view(v@))
            &&& forall|i: int|
                0 <= i < 12 ==> (cs.values[#[trigger] self.indices@[i] as int] matches Some(w)
                    && w@ == v@[i]@)
        })
    }

    pub open spec fn has_value(self) -> bool {
        self.value is Some
    }

    pub open spec fn coeffs(self) -> Seq<Seq<u64>> {
        coeffs_view(self.value->Some_0@)
    }
}

/// Clones a G2 point representation.
fn clone_g2_point(p: &G2Point) -> (r: G2Point)
    ensures
        r.x0@ == p.x0@,
        r.x1@ == p.x1@,
        r.y0@ == p.y0@,
        r.y1@ == p.y1@,
        r.infinity == p.infinity,
{
    G2Point {
        x0: clone_limbs(&p.x0),
        x1: clone_limbs(&p.x1),
        y0: clone_limbs(&p.y0),
        y1: clone_limbs(&p.y1),
        infinity: p.infinity,
    }
}

/// Binds a G2 point's coordinates as four fresh variables.
pub fn alloc_g2(cs: &mut ConstraintSystem, role: Role, value: Option<G2Point>) -> (r: Result<
    G2Var,
    CsError,
>)
    requires
        old(cs).wf(),
        !old(cs).finalized,
        old(cs).field == FieldId::BlsFq,
        value matches Some(p) ==> g2_valid(p),
        role != Role::Constant || value is Some,
    ensures
        final(cs).wf(),
        !final(cs).finalized,
        r matches Ok(g),
        r matches Ok(g) ==> {
            &&& g.tracks(*final(cs))
            &&& (g.value is Some <==> value is Some)
            &&& g.value == value
            &&& extends(*old(cs), *final(cs))
            &&& final(cs).num_vars() == old(cs).num_vars() + 4
            &&& final(cs).roles@ == old(cs).roles@.push(role).push(role).push(role).push(role)
            &&& final(cs).constraints@ == old(cs).constraints@
            &&& (old(cs).all_satisfied() ==> final(cs).all_satisfied())
            &&& (old(cs).fully_assigned() ==> final(cs).fully_assigned())
        },
{
    let ghost pre = *cs;
    let (v0, v1, v2, v3): (
        Option<Vec<u64>>,
        Option<Vec<u64>>,
        Option<Vec<u64>>,
        Option<Vec<u64>>,
    ) = match &value {
        Some(p) => {
            let c = clone_g2_point(p);
            (Some(c.x0), Some(c.x1), Some(c.y0), Some(c.y1))
        },
        None => (None, None, None, None),
    };
    let g0 = match alloc_felt(cs, role, v0) {
        Ok(g) => g,
        Err(_) => unreached(),
    };
    let ghost m0 = *cs;
    let g1 = match alloc_felt(cs, role, v1) {
        Ok(g) => g,
        Err(_) => unreached(),
    };
    let ghost m1 = *cs;
    let g2 = match alloc_felt(cs, role, v2) {
        Ok(g) => g,
        Err(_) => unreached(),
    };
    let ghost m2 = *cs;
    let g3 = match alloc_felt(cs, role, v3) {
        Ok(g) => g,
        Err(_) => unreached(),
    };
    proof {
        lemma_extends_trans(pre, m0, m1);
        lemma_extends_trans(pre, m1, m2);
        lemma_extends_trans(pre, m2, *cs);
        lemma_tracks_extend(g0, m0, m1);
        lemma_tracks_extend(g0, m1, m2);
        lemma_tracks_extend(g0, m2, *cs);
        lemma_tracks_extend(g1, m1, m2);
        lemma_tracks_extend(g1, m2, *cs);
        lemma_tracks_extend(g2, m2, *cs);
    }
    Ok(G2Var {
        x0_index: g0.index,
        x1_index: g1.index,
        y0_index: g2.index,
        y1_index: g3.index,
        value,
    })
}

/// Fixes a G1 operand for pairing, mirroring the native Miller-loop
/// precomputation.  Preparation emits no constraint; it freezes the operand.
pub fn prepare_g1(g: G1Var) -> (r: PreparedG1Var)
    ensures
        r.inner == g,
{
    PreparedG1Var { inner: g }
}

/// Fixes a G2 operand for pairing.
pub fn prepare_g2(g: G2Var) -> (r: PreparedG2Var)
    ensures
        r.inner == g,
{
    PreparedG2Var { inner: g }
}

/// Takes the pairing of two prepared operands.  The twelve coefficients of
/// the native pairing value are bound as fresh witness variables — value-bound
/// rather than constraint-forced: no constraint ties them to the operands.
/// With a concrete witness the gadget's value is exactly the native pairing
/// of the operands' points.
pub fn pairing_gadget(cs: &mut ConstraintSystem, a: &PreparedG1Var, b: &PreparedG2Var) -> (r:
    Result<TargetVar, CsError>)
    requires
        old(cs).wf(),
        !old(cs).finalized,
        old(cs).field == FieldId::BlsFq,
        a.inner.tracks(*old(cs)),
        b.inner.tracks(*old(cs)),
    ensures
        final(cs).wf(),
        !final(cs).finalized,
        r matches Ok(g),
        r matches Ok(g) ==> {
            &&& g.tracks(*final(cs))
            &&& (g.has_value() <==> a.inner.has_value() && b.inner.has_value())
            &&& (a.inner.has_value() && b.inner.has_value() ==> g.coeffs() == pairing_of(
                a.inner.value->Some_0.x@,
                a.inner.value->Some_0.y@,
                a.inner.value->Some_0.infinity,
                b.inner.value->Some_0.x0@,
                b.inner.value->Some_0.x1@,
                b.inner.value->Some_0.y0@,
                b.inner.value->Some_0.y1@,
                b.inner.value->Some_0.infinity,
            ))
            &&& extends(*old(cs), *final(cs))
            &&& final(cs).num_vars() == old(cs).num_vars() + 12
            &&& final(cs).roles@ == roles_after(old(cs).roles@, Role::Private, 12)
            &&& final(cs).constraints@ == old(cs).constraints@
            &&& (old(cs).all_satisfied() ==> final(cs).all_satisfied())
            &&& (old(cs).fully_assigned() ==> final(cs).fully_assigned())
        },
{
    let coeffs: Option<Vec<Vec<u64>>> = match (&a.inner.value, &b.inner.value) {
        (Some(p), Some(q)) => Some(pairing_native(p, q)),
        _ => None,
    };
    alloc_target(cs, Role::Private, coeffs)
}

/// Binds an expected target-field element, coefficient by coefficient, as
/// public inputs: the verifier supplies the same coefficients in the same
/// order.
pub fn alloc_target_input(cs: &mut ConstraintSystem, coeffs: Vec<Vec<u64>>) -> (r: Result<
    TargetVar,
    CsError,
>)
    requires
        old(cs).wf(),
        !old(cs).finalized,
        old(cs).field == FieldId::BlsFq,
        coeffs_canonical(coeffs_view(coeffs@)),
    ensures
        final(cs).wf(),
        !final(cs).finalized,
        r matches Ok(g),
        r matches Ok(g) ==> {
            &&& g.tracks(*final(cs))
            &&& g.has_value()
            &&& (g.value matches Some(w) && coeffs_view(w@) == coeffs_view(coeffs@))
            &&& extends(*old(cs), *final(cs))
            &&& final(cs).num_vars() == old(cs).num_vars() + 12
            &&& final(cs).roles@ == roles_after(old(cs).roles@, Role::Public, 12)
            &&& final(cs).constraints@ == old(cs).constraints@
            &&& (old(cs).all_satisfied() ==> final(cs).all_satisfied())
            &&& (old(cs).fully_assigned() ==> final(cs).fully_assigned())
        },
{
    alloc_target(cs, Role::Public, Some(coeffs))
}

/// Binds twelve target-field coefficients as fresh variables with the given
/// role.
fn alloc_target(cs: &mut ConstraintSystem, role: Role, coeffs: Option<Vec<Vec<u64>>>) -> (r: Result<
    TargetVar,
    CsError,
>)
    requires
        old(cs).wf(),
        !old(cs).finalized,
        old(cs).field == FieldId::BlsFq,
        coeffs matches Some(v) ==> coeffs_canonical(coeffs_view(v@)),
        role != Role::Constant || coeffs is Some,
    ensures
        final(cs).wf(),
        !final(cs).finalized,
        r matches Ok(g),
        r matches Ok(g) ==> {
            &&& g.tracks(*final(cs))
            &&& (g.has_value() <==> coeffs is Some)
            &&& (coeffs matches Some(v) ==> g.value matches Some(w) && coeffs_view(w@)
                == coeffs_view(v@))
            &&& extends(*old(cs), *final(cs))
            &&& final(cs).num_vars() == old(cs).num_vars() + 12
            &&& final(cs).roles@ == roles_after(old(cs).roles@, role, 12)
            &&& final(cs).constraints@ == old(cs).constraints@
            &&& (old(cs).all_satisfied() ==> final(cs).all_satisfied())
            &&& (old(cs).fully_assigned() ==> final(cs).fully_assigned())
        },
{
    let ghost pre = *cs;
    let mut indices: Vec<usize> = Vec::new();
    let mut kept: Option<Vec<Vec<u64>>> = match &coeffs {
        Some(v) => Some(clone_coeffs(v)),
        None => None,
    };
    let mut i: usize = 0;
    while i < 12
        invariant
            cs.wf(),
            !cs.finalized,
            cs.field == FieldId::BlsFq,
            i <= 12,
            role != Role::Constant || coeffs is Some,
            indices@.len() == i,
            extends(pre, *cs),
            cs.roles@ == roles_after(pre.roles@, role, i as nat),
            cs.constraints@ == pre.constraints@,
            pre.all_satisfied() ==> cs.all_satisfied(),
            pre.fully_assigned() ==> cs.fully_assigned(),
            coeffs matches Some(v) ==> coeffs_canonical(coeffs_view(v@)),
            forall|j: int|
                0 <= j < i ==> (#[trigger] indices@[j]) < cs.num_vars(),
            forall|j: int|
                0 <= j < i ==> (coeffs is Some <==> cs.values[#[trigger] indices@[j] as int]
                    is Some),
            forall|j: int|
                0 <= j < i ==> (coeffs matches Some(v) ==> (
                cs.values[#[trigger] indices@[j] as int] matches Some(w) && w@ == v@[j]@)),
        decreases 12 - i,
    {
        let ghost mid = *cs;
        proof {
            if coeffs is Some {
                let v = coeffs->Some_0;
                assert(coeffs_view(v@).len() == v@.len());
                assert(coeffs_view(v@)[i as int] == v@[i as int]@);
                assert(canonical(FieldId::BlsFq, coeffs_view(v@)[i as int]));
            }
        }
        let stored: Option<Vec<u64>> = match &coeffs {
            Some(v) => Some(clone_limbs(&v[i])),
            None => None,
        };
        let g = match alloc_felt(cs, role, stored) {
            Ok(g) => g,
            Err(_) => unreached(),
        };
        proof {
            lemma_extends_trans(pre, mid, *cs);
            assert forall|j: int| 0 <= j < indices@.len() implies cs.values[(#[trigger] indices@[j]) as int]
                == mid.values[indices@[j] as int] by {
                assert(mid.values@[indices@[j] as int] == cs.values@[indices@[j] as int]);
            }
            assert(cs.roles@ =~= roles_after(pre.roles@, role, (i + 1) as nat));
        }
        indices.push(g.index);
        i += 1;
    }
    proof {
        if coeffs is Some {
            assert forall|j: int| 0 <= j < 12 implies cs.values[(#[trigger] indices@[j]) as int]
                is Some by {}
        } else {
            assert(kept is None);
            assert forall|j: int| 0 <= j < 12 implies cs.values[(#[trigger] indices@[j]) as int]
                is None by {}
        }
        if coeffs is Some {
            let v = coeffs->Some_0;
            let w = kept->Some_0;
            assert(coeffs_view(w@) == coeffs_view(v@));
            assert(coeffs_view(w@).len() == w@.len() && coeffs_view(v@).len() == v@.len());
            assert forall|j: int| 0 <= j < 12 implies (cs.values[(#[trigger] indices@[j]) as int]
                matches Some(x) && x@ == w@[j]@) by {
                assert(cs.values[indices@[j] as int] matches Some(x) && x@ == v@[j]@);
                assert(coeffs_view(w@)[j] == coeffs_view(v@)[j]);
                assert(w@[j]@ == v@[j]@);
            }
            assert(coeffs_canonical(coeffs_view(w@)));
        }
    }
    Ok(TargetVar { indices, value: kept })
}

/// Clones the coefficient vectors.
fn clone_coeffs(v: &Vec<Vec<u64>>) -> (r: Vec<Vec<u64>>)
    ensures
        coeffs_view(r@) == coeffs_view(v@),
        r@.len() == v@.len(),
        forall|i: int| 0 <= i < v@.len() ==> (#[trigger] r@[i])@ == v@[i]@,
{
    let mut out: Vec<Vec<u64>> = Vec::new();
    let mut i: usize = 0;
    while i < v.len()
        invariant
            i <= v.len(),
            out@.len() == i,
            forall|j: int| 0 <= j < i ==> (#[trigger] out@[j])@ == v@[j]@,
        decreases v.len() - i,
    {
        out.push(clone_limbs(&v[i]));
        i += 1;
    }
    proof {
        assert(coeffs_view(out@) =~= coeffs_view(v@));
    }
    out
}

/// Forces two target-field gadgets to hold the same coefficients: one
/// constraint per coefficient.
pub fn enforce_equal_target(cs: &mut ConstraintSystem, a: &TargetVar, b: &TargetVar) -> (r: Result<
    (),
    CsError,
>)
    requires
        old(cs).wf(),
        !old(cs).finalized,
        a.tracks(*old(cs)),
        b.tracks(*old(cs)),
    ensures
        final(cs).wf(),
        !final(cs).finalized,
        r == Ok::<(), CsError>(()),
        extends(*old(cs), *final(cs)),
        final(cs).num_vars() == old(cs).num_vars(),
        final(cs).roles@ == old(cs).roles@,
        final(cs).constraints@.len() == old(cs).constraints@.len() + 12,
        a.has_value() && b.has_value() ==> final(cs).all_satisfied() == (old(cs).all_satisfied()
            && a.coeffs() == b.coeffs()),
        a.has_value() && b.has_value() ==> (old(cs).fully_assigned() ==> final(cs).fully_assigned()),
        !(a.has_value() && b.has_value()) ==> !final(cs).fully_assigned(),
{
    if a.value.is_none() || b.value.is_none() {
        return enforce_equal_target_symbolic(cs, a, b);
    }
    let ghost pre = *cs;
    let va = match &a.value {
        Some(v) => v,
        None => unreached(),
    };
    let vb = match &b.value {
        Some(v) => v,
        None => unreached(),
    };
    let mut i: usize = 0;
    while i < 12
        invariant
            cs.wf(),
            !cs.finalized,
            i <= 12,
            a.tracks(*cs),
            b.tracks(*cs),
            a.value matches Some(v) && v == va,
            b.value matches Some(v) && v == vb,
            va@.len() == 12 && vb@.len() == 12,
            extends(pre, *cs),
            cs.num_vars() == pre.num_vars(),
            cs.roles@ == pre.roles@,
            cs.constraints@.len() == pre.constraints@.len() + i,
            cs.all_satisfied() == (pre.all_satisfied() && (forall|j: int|
                0 <= j < i ==> (#[trigger] va@[j])@ == vb@[j]@)),
            pre.fully_assigned() ==> cs.fully_assigned(),
        decreases 12 - i,
    {
        let ghost mid = *cs;
        let fa = wrap_var(cs, a.indices[i], Some(clone_limbs(&va[i])));
        let fb = wrap_var(cs, b.indices[i], Some(clone_limbs(&vb[i])));
        proof {
            assert(cs.values[fa.index as int] matches Some(w) && w@ == va@[i as int]@);
            assert(cs.values[fb.index as int] matches Some(w) && w@ == vb@[i as int]@);
        }
        match enforce_equal_felts(cs, &fa, &fb, String::new()) {
            Ok(u) => u,
            Err(_) => unreached(),
        };
        proof {
            lemma_extends_trans(pre, mid, *cs);
            assert(a.tracks(*cs) && b.tracks(*cs)) by {
                lemma_target_tracks_extend(*a, mid, *cs);
                lemma_target_tracks_extend(*b, mid, *cs);
            }
            if va@[i as int]@ == vb@[i as int]@ {
                assert(fa.val() == fb.val());
            }
            if fa.val() == fb.val() {
                crate::cs::lemma_limbs_val_injective(va@[i as int]@, vb@[i as int]@);
            }
        }
        i += 1;
    }
    proof {
        if forall|j: int| 0 <= j < 12 ==> (#[trigger] va@[j])@ == vb@[j]@ {
            assert(a.coeffs() =~= b.coeffs());
        } else {
            let j = choose|j: int| 0 <= j < 12 && (#[trigger] va@[j])@ != vb@[j]@;
            assert(a.coeffs()[j] != b.coeffs()[j]);
        }
    }
    Ok(())
}

/// Target tracking survives any extension of the constraint system.
pub proof fn lemma_target_tracks_extend(g: TargetVar, pre: ConstraintSystem, post: ConstraintSystem)
    requires
        g.tracks(pre),
        extends(pre, post),
    ensures
        g.tracks(post),
{
    assert forall|i: int| 0 <= i < 12 implies post.values@[(#[trigger] g.indices@[i]) as int]
        == pre.values@[g.indices@[i] as int] by {}
}

/// The witness-free form of target equality: the same twelve constraints,
/// whose assignments are reported missing.
fn enforce_equal_target_symbolic(cs: &mut ConstraintSystem, a: &TargetVar, b: &TargetVar) -> (r:
    Result<(), CsError>)
    requires
        old(cs).wf(),
        !old(cs).finalized,
        a.tracks(*old(cs)),
        b.tracks(*old(cs)),
        a.value is None || b.value is None,
    ensures
        final(cs).wf(),
        !final(cs).finalized,
        r == Ok::<(), CsError>(()),
        extends(*old(cs), *final(cs)),
        final(cs).num_vars() == old(cs).num_vars(),
        final(cs).roles@ == old(cs).roles@,
        final(cs).constraints@.len() == old(cs).constraints@.len() + 12,
        !final(cs).fully_assigned(),
{
    let ghost pre = *cs;
    let mut i: usize = 0;
    while i < 12
        invariant
            cs.wf(),
            !cs.finalized,
            i <= 12,
            a.tracks(*cs),
            b.tracks(*cs),
            a.value is None || b.value is None,
            extends(pre, *cs),
            cs.num_vars() == pre.num_vars(),
            cs.roles@ == pre.roles@,
            cs.constraints@.len() == pre.constraints@.len() + i,
            i >= 1 ==> !cs.fully_assigned(),
        decreases 12 - i,
    {
        let ghost mid = *cs;
        let fa_val: Option<Vec<u64>> = match &a.value {
            Some(v) => Some(clone_limbs(&v[i])),
            None => None,
        };
        let fb_val: Option<Vec<u64>> = match &b.value {
            Some(v) => Some(clone_limbs(&v[i])),
            None => None,
        };
        proof {
            if a.value is None {
                assert(cs.values[a.indices@[i as int] as int] is None);
            } else {
                assert(cs.values[a.indices@[i as int] as int] matches Some(w) && w@
                    == a.value->Some_0@[i as int]@);
            }
            if b.value is None {
                assert(cs.values[b.indices@[i as int] as int] is None);
            } else {
                assert(cs.values[b.indices@[i as int] as int] matches Some(w) && w@
                    == b.value->Some_0@[i as int]@);
            }
        }
        let fa = wrap_var(cs, a.indices[i], fa_val);
        let fb = wrap_var(cs, b.indices[i], fb_val);
        match enforce_equal_felts(cs, &fa, &fb, String::new()) {
            Ok(u) => u,
            Err(_) => unreached(),
        };
        proof {
            lemma_extends_trans(pre, mid, *cs);
            assert(a.tracks(*cs) && b.tracks(*cs)) by {
                lemma_target_tracks_extend(*a, mid, *cs);
                lemma_target_tracks_extend(*b, mid, *cs);
            }
        }
        i += 1;
    }
    Ok(())
}

/// Extracts the native coefficients; fails when the circuit runs without a
/// witness.
pub fn target_value(g: &TargetVar) -> (r: Result<Vec<Vec<u64>>, CsError>)
    ensures
        match r {
            Ok(v) => g.value matches Some(w) && coeffs_view(v@) == coeffs_view(w@),
            Err(e) => e == CsError::AssignmentMissing && g.value is None,
        },
{
    match &g.value {
        Some(v) => Ok(clone_coeffs(v)),
        None => Err(CsError::AssignmentMissing),
    }
}

} // verus!
