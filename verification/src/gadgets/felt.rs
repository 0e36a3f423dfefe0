//! The field-element gadget: a variable of the constraint system, a
//! compile-time constant offset folded onto it, and the optional native value
//! the pair stands for.
//!
//! The offset is what makes addition with a compile-time constant
//! constraint-free: the sum reuses the other operand's variable and grows the
//! offset, allocating nothing and enforcing nothing.  Every operation keeps
//! the gadget's native value equal to the value implied by the assignment,
//! emits the documented constraints, and preserves satisfaction of
//! everything recorded before.
use vstd::prelude::*;
use vstd::pervasive::unreached;

use vstd::arithmetic::div_mod::{lemma_add_mod_noop, lemma_small_mod};

use crate::cs::{
    lemma_seq_pred_push, lemma_seq_satisfied_extend, assigned_val, constraint_satisfied,
    constraint_assigned, lc_val, lc_wf, term_assigned, term_wf, Constraint, ConstraintSystem,
    CsError, LinComb, Role, Term,
};
use crate::fields::{
    canonical, fe_add, fe_from_u64, fe_mul, lemma_modulus_large, limbs_val, modulus, FieldId,
};

verus! {

/// A field element inside a constraint system: the variable holding its
/// varying part, a canonical constant offset known at recording time, and,
/// when the circuit is evaluated with a concrete witness, the native value
/// of variable-plus-offset.
pub struct FeltVar {
    pub index: usize,
    pub offset: Vec<u64>,
    pub value: Option<Vec<u64>>,
}

impl FeltVar {
    /// The gadget's native value is exactly the assignment of its variable
    /// plus its offset, under the field's arithmetic.
    pub open spec fn tracks(self, cs: ConstraintSystem) -> bool {
        &&& self.index < cs.num_vars()
        &&& canonical(cs.field, self.offset@)
        &&& (self.value is Some <==> cs.values[self.index as int] is Some)
        &&& (self.value matches Some(v) ==> canonical(cs.field, v@) && (
        cs.values[self.index as int] matches Some(w) && limbs_val(v@) == (limbs_val(w@)
            + limbs_val(self.offset@)) % modulus(cs.field)))
    }

    pub open spec fn has_value(self) -> bool {
        self.value is Some
    }

    /// The native value carried, as an integer (zero where none is carried).
    pub open spec fn val(self) -> nat {
        match self.value {
            Some(v) => limbs_val(v@),
            None => 0,
        }
    }
}

/// The second system extends the first: same field, goal and phase, every
/// old variable (role and assignment) and every old constraint kept.
pub open spec fn extends(pre: ConstraintSystem, post: ConstraintSystem) -> bool {
    &&& post.field == pre.field
    &&& post.goal == pre.goal
    &&& post.finalized == pre.finalized
    &&& pre.roles@.len() <= post.roles@.len()
    &&& post.roles@.len() == post.values@.len()
    &&& forall|i: int| 0 <= i < pre.values@.len() ==> post.values@[i] == pre.values@[i]
    &&& pre.roles@.len() == pre.values@.len()
    &&& forall|i: int| 0 <= i < pre.roles@.len() ==> post.roles@[i] == pre.roles@[i]
    &&& pre.constraints@.len() <= post.constraints@.len()
    &&& forall|i: int| 0 <= i < pre.constraints@.len() ==> post.constraints@[i]
        == pre.constraints@[i]
}

/// The roles vector after binding `k` fresh variables of one role.
pub open spec fn roles_after(pre: Seq<Role>, role: Role, k: nat) -> Seq<Role> {
    pre + Seq::new(k, |j: int| role)
}

/// Tracking survives any extension of the constraint system.
pub proof fn lemma_tracks_extend(g: FeltVar, pre: ConstraintSystem, post: ConstraintSystem)
    requires
        g.tracks(pre),
        extends(pre, post),
    ensures
        g.tracks(post),
{
    assert(post.values@[g.index as int] == pre.values@[g.index as int]);
}

/// A recorded constraint that misses an assignment keeps missing it under
/// any extension: fresh variables never fill an old constraint's gap.
pub proof fn lemma_missing_assignment_persists(pre: ConstraintSystem, post: ConstraintSystem)
    requires
        pre.wf(),
        extends(pre, post),
        !pre.fully_assigned(),
    ensures
        !post.fully_assigned(),
{
    let i = choose|i: int|
        0 <= i < pre.constraints@.len() && !constraint_assigned(
            pre.values@,
            #[trigger] pre.constraints@[i],
        );
    let c = pre.constraints@[i];
    assert(post.constraints@[i] == c);
    assert(!constraint_assigned(post.values@, c)) by {
        if constraint_assigned(post.values@, c) {
            assert(constraint_assigned(pre.values@, c)) by {
                assert forall|t: Term|
                    #[trigger] term_assigned(post.values@, t) && term_wf(
                        pre.field,
                        pre.num_vars(),
                        t,
                    ) implies term_assigned(pre.values@, t) by {
                    assert(post.values@[t.var as int] == pre.values@[t.var as int]);
                }
                assert(crate::cs::constraint_wf(pre.field, pre.num_vars(), c));
                assert forall|j: int| 0 <= j < c.a.terms@.len() implies term_assigned(
                    pre.values@,
                    #[trigger] c.a.terms@[j],
                ) by {
                    assert(term_assigned(post.values@, c.a.terms@[j]));
                    assert(crate::cs::term_wf(pre.field, pre.num_vars(), c.a.terms@[j]));
                }
                assert forall|j: int| 0 <= j < c.b.terms@.len() implies term_assigned(
                    pre.values@,
                    #[trigger] c.b.terms@[j],
                ) by {
                    assert(term_assigned(post.values@, c.b.terms@[j]));
                    assert(crate::cs::term_wf(pre.field, pre.num_vars(), c.b.terms@[j]));
                }
                assert forall|j: int| 0 <= j < c.c.terms@.len() implies term_assigned(
                    pre.values@,
                    #[trigger] c.c.terms@[j],
                ) by {
                    assert(term_assigned(post.values@, c.c.terms@[j]));
                    assert(crate::cs::term_wf(pre.field, pre.num_vars(), c.c.terms@[j]));
                }
            }
        }
    }
}

/// Extension is transitive.
pub proof fn lemma_extends_trans(a: ConstraintSystem, b: ConstraintSystem, c: ConstraintSystem)
    requires
        extends(a, b),
        extends(b, c),
    ensures
        extends(a, c),
{
}

/// Clones a limb vector.
pub fn clone_limbs(v: &Vec<u64>) -> (r: Vec<u64>)
    ensures
        r@ == v@,
{
    let mut out: Vec<u64> = Vec::new();
    let mut i: usize = 0;
    while i < v.len()
        invariant
            i <= v.len(),
            out@ == v@.take(i as int),
        decreases v.len() - i,
    {
        out.push(v[i]);
        i += 1;
        proof {
            assert(out@ =~= v@.take(i as int));
        }
    }
    proof {
        assert(v@.take(v@.len() as int) =~= v@);
    }
    out
}

/// Clones an optional canonical value.
fn clone_opt_value(v: &Option<Vec<u64>>) -> (r: Option<Vec<u64>>)
    ensures
        r is Some <==> v is Some,
        r matches Some(rv) ==> (v matches Some(vv) && rv@ == vv@),
{
    match v {
        Some(inner) => Some(clone_limbs(inner)),
        None => None,
    }
}

/// Wraps an existing variable as an offset-free gadget carrying the given
/// native value.
pub fn wrap_var(cs: &ConstraintSystem, index: usize, value: Option<Vec<u64>>) -> (g: FeltVar)
    requires
        cs.wf(),
        index < cs.num_vars(),
        value is Some <==> cs.values[index as int] is Some,
        value matches Some(v) ==> canonical(cs.field, v@) && (cs.values[index as int]
            matches Some(w) && limbs_val(v@) == limbs_val(w@)),
    ensures
        g.tracks(*cs),
        g.index == index,
        g.value == value,
        limbs_val(g.offset@) == 0,
{
    let g = FeltVar { index, offset: fe_from_u64(cs.field, 0), value };
    proof {
        if g.value is Some {
            let w = cs.values@[index as int]->Some_0;
            lemma_modulus_large(cs.field);
            lemma_small_mod(limbs_val(w@), modulus(cs.field));
        }
    }
    g
}

/// Binds a native value (or a placeholder) as a fresh variable with the given
/// role and wraps it as an offset-free gadget.
///
/// Fails exactly on a finalized system, and on a constant without its value.
pub fn alloc_felt(cs: &mut ConstraintSystem, role: Role, value: Option<Vec<u64>>) -> (r: Result<
    FeltVar,
    CsError,
>)
    requires
        old(cs).wf(),
        value matches Some(v) ==> canonical(old(cs).field, v@),
    ensures
        final(cs).wf(),
        old(cs).finalized ==> r == Err::<FeltVar, CsError>(CsError::AlreadyFinalized) && *final(cs)
            == *old(cs),
        !old(cs).finalized && role == Role::Constant && value is None ==> r == Err::<
            FeltVar,
            CsError,
        >(CsError::AssignmentMissing) && *final(cs) == *old(cs),
        !old(cs).finalized && (role != Role::Constant || value is Some) ==> {
            &&& r matches Ok(g)
            &&& (r matches Ok(g) ==> {
                &&& g.tracks(*final(cs))
                &&& g.index == old(cs).num_vars()
                &&& limbs_val(g.offset@) == 0
                &&& (g.value is Some <==> value is Some)
                &&& (value matches Some(v) ==> g.value matches Some(w) && w@ == v@)
                &&& (value matches Some(v) ==> final(cs).values[g.index as int] matches Some(w)
                    && w@ == v@)
                &&& extends(*old(cs), *final(cs))
                &&& final(cs).num_vars() == old(cs).num_vars() + 1
                &&& final(cs).roles@ == old(cs).roles@.push(role)
                &&& final(cs).constraints@ == old(cs).constraints@
                &&& (old(cs).all_satisfied() ==> final(cs).all_satisfied())
                &&& (old(cs).fully_assigned() ==> final(cs).fully_assigned())
            })
        },
{
    if cs.finalized {
        return Err(CsError::AlreadyFinalized);
    }
    if matches!(role, Role::Constant) && value.is_none() {
        return Err(CsError::AssignmentMissing);
    }
    let stored = clone_opt_value(&value);
    let ghost pre = *cs;
    let idx = match cs.allocate(role, stored) {
        Ok(i) => i,
        Err(_) => unreached(),
    };
    proof {
        lemma_seq_satisfied_extend(
            pre.field,
            pre.values@,
            cs.values@[pre.values@.len() as int],
            pre.constraints@,
        );
        assert(cs.values@ =~= pre.values@.push(cs.values@[pre.values@.len() as int]));
        assert(forall|i: int|
            0 <= i < pre.values@.len() ==> cs.values@[i] == pre.values@.push(
                cs.values@[pre.values@.len() as int],
            )[i]);
    }
    let g = wrap_var(cs, idx, value);
    Ok(g)
}

/// Binds a private witness value.
pub fn new_witness(cs: &mut ConstraintSystem, value: Option<Vec<u64>>) -> (r: Result<
    FeltVar,
    CsError,
>)
    requires
        old(cs).wf(),
        value matches Some(v) ==> canonical(old(cs).field, v@),
    ensures
        final(cs).wf(),
        old(cs).finalized ==> r == Err::<FeltVar, CsError>(CsError::AlreadyFinalized) && *final(cs)
            == *old(cs),
        !old(cs).finalized ==> {
            &&& r matches Ok(g)
            &&& (r matches Ok(g) ==> {
                &&& g.tracks(*final(cs))
                &&& (g.value is Some <==> value is Some)
                &&& (value matches Some(v) ==> g.value matches Some(w) && w@ == v@)
                &&& extends(*old(cs), *final(cs))
                &&& final(cs).num_vars() == old(cs).num_vars() + 1
                &&& final(cs).roles@ == old(cs).roles@.push(Role::Private)
                &&& final(cs).constraints@ == old(cs).constraints@
                &&& (old(cs).all_satisfied() ==> final(cs).all_satisfied())
                &&& (old(cs).fully_assigned() ==> final(cs).fully_assigned())
            })
        },
{
    alloc_felt(cs, Role::Private, value)
}

/// Binds a public-input value; at verification time the inputs must be
/// supplied in allocation order.
pub fn new_input(cs: &mut ConstraintSystem, value: Option<Vec<u64>>) -> (r: Result<
    FeltVar,
    CsError,
>)
    requires
        old(cs).wf(),
        value matches Some(v) ==> canonical(old(cs).field, v@),
    ensures
        final(cs).wf(),
        old(cs).finalized ==> r == Err::<FeltVar, CsError>(CsError::AlreadyFinalized) && *final(cs)
            == *old(cs),
        !old(cs).finalized ==> {
            &&& r matches Ok(g)
            &&& (r matches Ok(g) ==> {
                &&& g.tracks(*final(cs))
                &&& (g.value is Some <==> value is Some)
                &&& (value matches Some(v) ==> g.value matches Some(w) && w@ == v@)
                &&& extends(*old(cs), *final(cs))
                &&& final(cs).num_vars() == old(cs).num_vars() + 1
                &&& final(cs).roles@ == old(cs).roles@.push(Role::Public)
                &&& final(cs).constraints@ == old(cs).constraints@
                &&& (old(cs).all_satisfied() ==> final(cs).all_satisfied())
                &&& (old(cs).fully_assigned() ==> final(cs).fully_assigned())
            })
        },
{
    alloc_felt(cs, Role::Public, value)
}

/// Binds a fixed constant; its value is always present and the proving
/// backend treats the variable as fixed.
pub fn new_constant(cs: &mut ConstraintSystem, value: Vec<u64>) -> (r: Result<FeltVar, CsError>)
    requires
        old(cs).wf(),
        canonical(old(cs).field, value@),
    ensures
        final(cs).wf(),
        old(cs).finalized ==> r == Err::<FeltVar, CsError>(CsError::AlreadyFinalized) && *final(cs)
            == *old(cs),
        !old(cs).finalized ==> {
            &&& r matches Ok(g)
            &&& (r matches Ok(g) ==> {
                &&& g.tracks(*final(cs))
                &&& (g.value matches Some(w) && w@ == value@)
                &&& extends(*old(cs), *final(cs))
                &&& final(cs).num_vars() == old(cs).num_vars() + 1
                &&& final(cs).roles@ == old(cs).roles@.push(Role::Constant)
                &&& final(cs).constraints@ == old(cs).constraints@
                &&& final(cs).roles[g.index as int] == Role::Constant
                &&& (old(cs).all_satisfied() ==> final(cs).all_satisfied())
                &&& (old(cs).fully_assigned() ==> final(cs).fully_assigned())
            })
        },
{
    alloc_felt(cs, Role::Constant, Some(value))
}

/// Whether the gadget's variable is a fixed constant, so the whole gadget is
/// reducible at recording time.
pub open spec fn is_const(cs: ConstraintSystem, g: FeltVar) -> bool {
    cs.roles[g.index as int] == Role::Constant
}

/// Value of a one-term combination whose coefficient is one.
pub proof fn lemma_lc_single(f: FieldId, vals: Seq<Option<Vec<u64>>>, s: Seq<Term>)
    requires
        s.len() == 1,
        limbs_val(s[0].coeff@) == 1,
        limbs_val(assigned_val(vals, s[0].var as int)) < modulus(f),
    ensures
        lc_val(f, vals, s) == limbs_val(assigned_val(vals, s[0].var as int)),
{
    lemma_modulus_large(f);
    let x = limbs_val(assigned_val(vals, s[0].var as int));
    assert(s.drop_last() =~= Seq::<Term>::empty());
    assert(lc_val(f, vals, s.drop_last()) == 0);
    assert(s.last() == s[0]);
    assert(lc_val(f, vals, s) == (0 + 1 * x) % modulus(f));
    assert(1 * x == x) by (nonlinear_arith);
    lemma_small_mod(x, modulus(f));
}

/// Value of a variable-plus-offset combination: a one-coefficient term and a
/// constant-coefficient term on the one variable.
pub proof fn lemma_lc_var_offset(f: FieldId, vals: Seq<Option<Vec<u64>>>, s: Seq<Term>)
    requires
        s.len() == 2,
        limbs_val(s[0].coeff@) == 1,
        limbs_val(s[1].coeff@) < modulus(f),
        limbs_val(assigned_val(vals, s[0].var as int)) < modulus(f),
        limbs_val(assigned_val(vals, s[1].var as int)) == 1,
    ensures
        lc_val(f, vals, s) == (limbs_val(assigned_val(vals, s[0].var as int)) + limbs_val(
            s[1].coeff@,
        )) % modulus(f),
{
    lemma_modulus_large(f);
    let p = modulus(f);
    let x0 = limbs_val(assigned_val(vals, s[0].var as int));
    let c1 = limbs_val(s[1].coeff@);
    assert(s.drop_last() =~= s.take(1));
    lemma_lc_single(f, vals, s.take(1));
    assert(s.last() == s[1]);
    assert(lc_val(f, vals, s) == (x0 + c1 * 1) % p);
    assert(c1 * 1 == c1) by (nonlinear_arith);
}

/// Value of a two-variables-plus-offset combination.
pub proof fn lemma_lc_pair_offset(f: FieldId, vals: Seq<Option<Vec<u64>>>, s: Seq<Term>)
    requires
        s.len() == 3,
        limbs_val(s[0].coeff@) == 1,
        limbs_val(s[1].coeff@) == 1,
        limbs_val(s[2].coeff@) < modulus(f),
        limbs_val(assigned_val(vals, s[0].var as int)) < modulus(f),
        limbs_val(assigned_val(vals, s[1].var as int)) < modulus(f),
        limbs_val(assigned_val(vals, s[2].var as int)) == 1,
    ensures
        lc_val(f, vals, s) == (limbs_val(assigned_val(vals, s[0].var as int)) + limbs_val(
            assigned_val(vals, s[1].var as int),
        ) + limbs_val(s[2].coeff@)) % modulus(f),
{
    lemma_modulus_large(f);
    let p = modulus(f);
    let x0 = limbs_val(assigned_val(vals, s[0].var as int));
    let x1 = limbs_val(assigned_val(vals, s[1].var as int));
    let c2 = limbs_val(s[2].coeff@);
    assert(s.take(2).drop_last() =~= s.take(1));
    lemma_lc_single(f, vals, s.take(1));
    assert(s.take(2).last() == s[1]);
    assert(lc_val(f, vals, s.take(2)) == (x0 + 1 * x1) % p);
    assert(1 * x1 == x1) by (nonlinear_arith);
    assert(s.drop_last() =~= s.take(2));
    assert(s.last() == s[2]);
    assert(lc_val(f, vals, s) == ((x0 + x1) % p + c2 * 1) % p);
    assert(c2 * 1 == c2) by (nonlinear_arith);
    lemma_small_mod(c2, p);
    lemma_add_mod_noop((x0 + x1) as int, c2 as int, p as int);
    lemma_small_mod((x0 + x1) % p, p);
    assert(((x0 + x1) % p + c2 % p) % p == (x0 + x1 + c2) % p);
}

/// Regrouping a four-way modular sum: folding the offsets into each operand
/// first gives the same residue.
proof fn lemma_mod_add_regroup(wa: nat, oa: nat, wb: nat, ob: nat, p: nat)
    requires
        p > 1,
    ensures
        ((wa + oa) % p + (wb + ob) % p) % p == (wa + wb + (oa + ob) % p) % p,
{
    lemma_add_mod_noop((wa + oa) as int, (wb + ob) as int, p as int);
    lemma_add_mod_noop((wa + wb) as int, (oa + ob) as int, p as int);
    lemma_add_mod_noop((wa + wb) as int, ((oa + ob) % p) as int, p as int);
    vstd::arithmetic::div_mod::lemma_mod_twice((oa + ob) as int, p as int);
}

/// The value the system assigns to a variable.
pub open spec fn var_val(cs: ConstraintSystem, idx: int) -> nat {
    limbs_val(assigned_val(cs.values@, idx))
}

/// Adds two gadgets.  When either operand's variable is a fixed constant the
/// sum reduces at recording time: the result reuses the other operand's
/// variable with a grown offset, and no variable or constraint is added.
/// Otherwise one linear constraint binds a fresh result variable.
#[verifier::rlimit(100)]
pub fn add_felts(cs: &mut ConstraintSystem, a: &FeltVar, b: &FeltVar, label: String) -> (r: Result<
    FeltVar,
    CsError,
>)
    requires
        old(cs).wf(),
        a.tracks(*old(cs)),
        b.tracks(*old(cs)),
    ensures
        final(cs).wf(),
        old(cs).finalized ==> r == Err::<FeltVar, CsError>(CsError::AlreadyFinalized) && *final(cs)
            == *old(cs),
        !old(cs).finalized ==> {
            &&& r matches Ok(g)
            &&& (r matches Ok(g) ==> {
                &&& g.tracks(*final(cs))
                &&& extends(*old(cs), *final(cs))
                &&& (g.has_value() <==> a.has_value() && b.has_value())
                &&& (g.has_value() ==> g.val() == (a.val() + b.val()) % modulus(old(cs).field))
                &&& ((is_const(*old(cs), *a) || is_const(*old(cs), *b)) ==> *final(cs) == *old(cs))
                &&& (!is_const(*old(cs), *a) && !is_const(*old(cs), *b) ==> {
                    &&& limbs_val(g.offset@) == 0
                    &&& g.index == old(cs).num_vars()
                    &&& final(cs).constraints@.len() == old(cs).constraints@.len() + 1
                    &&& final(cs).num_vars() == old(cs).num_vars() + 1
                    &&& final(cs).roles@ == old(cs).roles@.push(Role::Private)
                    &&& (a.has_value() && b.has_value() ==> (old(cs).all_satisfied() ==> final(cs).all_satisfied()) && (old(cs).fully_assigned() ==> final(cs).fully_assigned()))
                    &&& (!(a.has_value() && b.has_value()) ==> !final(cs).fully_assigned())
                })
            })
        },
{
    if cs.finalized {
        return Err(CsError::AlreadyFinalized);
    }
    let f = cs.field;
    let value: Option<Vec<u64>> = match (&a.value, &b.value) {
        (Some(va), Some(vb)) => Some(fe_add(f, va, vb)),
        _ => None,
    };
    proof {
        lemma_modulus_large(f);
    }
    if matches!(cs.roles[b.index], Role::Constant) {
        let bv = match &b.value {
            Some(v) => v,
            None => unreached(),
        };
        let g = FeltVar { index: a.index, offset: fe_add(f, &a.offset, bv), value };
        proof {
            lemma_fold_const(*cs, *a, *b, g);
        }
        return Ok(g);
    }
    if matches!(cs.roles[a.index], Role::Constant) {
        let av = match &a.value {
            Some(v) => v,
            None => unreached(),
        };
        let g = FeltVar { index: b.index, offset: fe_add(f, &b.offset, av), value };
        proof {
            lemma_fold_const(*cs, *b, *a, g);
        }
        return Ok(g);
    }
    let ghost pre = *cs;
    let g = match alloc_felt(cs, Role::Private, value) {
        Ok(g) => g,
        Err(_) => unreached(),
    };
    let ghost mid = *cs;
    let off_sum = fe_add(f, &a.offset, &b.offset);
    let mut ta: Vec<Term> = Vec::new();
    ta.push(Term { coeff: fe_from_u64(f, 1), var: a.index });
    ta.push(Term { coeff: fe_from_u64(f, 1), var: b.index });
    ta.push(Term { coeff: off_sum, var: 0 });
    let mut tb: Vec<Term> = Vec::new();
    tb.push(Term { coeff: fe_from_u64(f, 1), var: 0 });
    let mut tc: Vec<Term> = Vec::new();
    tc.push(Term { coeff: fe_from_u64(f, 1), var: g.index });
    let lca = LinComb { terms: ta };
    let lcb = LinComb { terms: tb };
    let lcc = LinComb { terms: tc };
    let ghost newc = Constraint { a: lca, b: lcb, c: lcc, label };
    match cs.enforce(lca, lcb, lcc, label) {
        Ok(u) => u,
        Err(_) => unreached(),
    };
    proof {
        let p = modulus(f);
        let vals = cs.values@;
        assert(cs.values@ == mid.values@);
        lemma_tracks_extend(*a, pre, mid);
        lemma_tracks_extend(*b, pre, mid);
        assert(limbs_val(assigned_val(vals, 0)) == 1 && limbs_val(assigned_val(vals, 0)) < p) by {
            assert(mid.values[0] matches Some(v) && limbs_val(v@) == 1);
        }
        lemma_assigned_bound(mid, a.index as int);
        lemma_assigned_bound(mid, b.index as int);
        lemma_assigned_bound(mid, g.index as int);
        lemma_lc_pair_offset(f, vals, newc.a.terms@);
        lemma_lc_single(f, vals, newc.b.terms@);
        lemma_lc_single(f, vals, newc.c.terms@);
        if a.value is Some && b.value is Some {
            let wa = var_val(mid, a.index as int);
            let wb = var_val(mid, b.index as int);
            assert(a.val() == (wa + limbs_val(a.offset@)) % p);
            assert(b.val() == (wb + limbs_val(b.offset@)) % p);
            assert(limbs_val(assigned_val(vals, g.index as int)) == (a.val() + b.val()) % p);
            assert(constraint_satisfied(f, vals, newc)) by {
                lemma_mod_add_regroup(
                    wa,
                    limbs_val(a.offset@),
                    wb,
                    limbs_val(b.offset@),
                    p,
                );
                let x = (a.val() + b.val()) % p;
                assert(lc_val(f, vals, newc.a.terms@) == x);
                assert(lc_val(f, vals, newc.b.terms@) == 1);
                assert(x * 1 == x) by (nonlinear_arith);
                lemma_small_mod(x, p);
            }
            lemma_seq_pred_push(f, vals, mid.constraints@, newc);
        } else {
            assert(!constraint_assigned(vals, newc)) by {
                if a.value is None {
                    assert(!term_assigned(vals, newc.a.terms@[0]));
                } else {
                    assert(!term_assigned(vals, newc.a.terms@[1]));
                }
            }
            assert(cs.constraints@.last() == newc);
            assert(!cs.fully_assigned());
        }
        assert(cs.constraints@ == mid.constraints@.push(newc));
    }
    Ok(g)
}

/// Every recorded assignment is canonical, so its value is below the modulus
/// (an absent assignment reads as zero).
proof fn lemma_assigned_bound(cs: ConstraintSystem, idx: int)
    requires
        cs.wf(),
    ensures
        limbs_val(assigned_val(cs.values@, idx)) < modulus(cs.field),
{
    lemma_modulus_large(cs.field);
    if 0 <= idx < cs.values@.len() {
        if cs.values@[idx] is Some {
            assert(cs.values[idx] matches Some(v) ==> canonical(cs.field, v@));
        }
    }
}

/// Folding a constant operand into the other operand's offset keeps the
/// tracked value exact.
proof fn lemma_fold_const(cs: ConstraintSystem, w: FeltVar, c: FeltVar, g: FeltVar)
    requires
        cs.wf(),
        w.tracks(cs),
        c.tracks(cs),
        cs.roles[c.index as int] == Role::Constant,
        g.index == w.index,
        c.value matches Some(cv) && canonical(cs.field, g.offset@) && limbs_val(g.offset@) == (
        limbs_val(w.offset@) + limbs_val(cv@)) % modulus(cs.field),
        (g.value is Some <==> w.value is Some && c.value is Some),
        g.value matches Some(v) ==> canonical(cs.field, v@) && (w.value matches Some(wv)
            && c.value matches Some(cv) && limbs_val(v@) == (limbs_val(wv@) + limbs_val(cv@))
            % modulus(cs.field)),
    ensures
        g.tracks(cs),
        g.has_value() ==> g.val() == (w.val() + c.val()) % modulus(cs.field),
{
    lemma_modulus_large(cs.field);
    let p = modulus(cs.field);
    if g.value is Some {
        let raw = limbs_val(assigned_val(cs.values@, w.index as int));
        let ow = limbs_val(w.offset@);
        let cv = limbs_val(c.value->Some_0@);
        assert(w.val() == (raw + ow) % p);
        // (w.val + cv) % p == (raw + (ow + cv) % p) % p == (raw + ow + cv) % p
        lemma_add_mod_noop((raw + ow) as int, cv as int, p as int);
        lemma_small_mod(cv, p);
        lemma_add_mod_noop(raw as int, (ow + cv) as int, p as int);
        lemma_assigned_bound(cs, w.index as int);
        lemma_small_mod(raw, p);
        assert(g.val() == (w.val() + c.val()) % p);
        assert(limbs_val(g.value->Some_0@) == (limbs_val(assigned_val(cs.values@, g.index as int))
            + limbs_val(g.offset@)) % p);
    }
}

/// Multiplies two gadgets.  One multiplicative constraint
/// `(a_var + a_off)·(b_var + b_off) = r` is always emitted; the product of
/// two constants is itself bound as a constant variable.
#[verifier::rlimit(60)]
pub fn mul_felts(cs: &mut ConstraintSystem, a: &FeltVar, b: &FeltVar, label: String) -> (r: Result<
    FeltVar,
    CsError,
>)
    requires
        old(cs).wf(),
        a.tracks(*old(cs)),
        b.tracks(*old(cs)),
    ensures
        final(cs).wf(),
        old(cs).finalized ==> r == Err::<FeltVar, CsError>(CsError::AlreadyFinalized) && *final(cs)
            == *old(cs),
        !old(cs).finalized ==> {
            &&& r matches Ok(g)
            &&& (r matches Ok(g) ==> {
                &&& g.tracks(*final(cs))
                &&& extends(*old(cs), *final(cs))
                &&& (g.has_value() <==> a.has_value() && b.has_value())
                &&& (g.has_value() ==> g.val() == (a.val() * b.val()) % modulus(old(cs).field))
                &&& limbs_val(g.offset@) == 0
                &&& final(cs).constraints@.len() == old(cs).constraints@.len() + 1
                &&& final(cs).num_vars() == old(cs).num_vars() + 1
                &&& final(cs).roles@ == old(cs).roles@.push(
                    if is_const(*old(cs), *a) && is_const(*old(cs), *b) {
                        Role::Constant
                    } else {
                        Role::Private
                    },
                )
                &&& (a.has_value() && b.has_value() ==> (old(cs).all_satisfied() ==> final(cs).all_satisfied()) && (old(cs).fully_assigned() ==> final(cs).fully_assigned()))
                &&& (!(a.has_value() && b.has_value()) ==> !final(cs).fully_assigned())
            })
        },
{
    if cs.finalized {
        return Err(CsError::AlreadyFinalized);
    }
    let f = cs.field;
    let value: Option<Vec<u64>> = match (&a.value, &b.value) {
        (Some(va), Some(vb)) => Some(fe_mul(f, va, vb)),
        _ => None,
    };
    let a_const = matches!(cs.roles[a.index], Role::Constant);
    let b_const = matches!(cs.roles[b.index], Role::Constant);
    let role = if a_const && b_const {
        Role::Constant
    } else {
        Role::Private
    };
    let ghost pre = *cs;
    let g = match alloc_felt(cs, role, value) {
        Ok(g) => g,
        Err(_) => unreached(),
    };
    let ghost mid = *cs;
    let mut ta: Vec<Term> = Vec::new();
    ta.push(Term { coeff: fe_from_u64(f, 1), var: a.index });
    ta.push(Term { coeff: clone_limbs(&a.offset), var: 0 });
    let mut tb: Vec<Term> = Vec::new();
    tb.push(Term { coeff: fe_from_u64(f, 1), var: b.index });
    tb.push(Term { coeff: clone_limbs(&b.offset), var: 0 });
    let mut tc: Vec<Term> = Vec::new();
    tc.push(Term { coeff: fe_from_u64(f, 1), var: g.index });
    let lca = LinComb { terms: ta };
    let lcb = LinComb { terms: tb };
    let lcc = LinComb { terms: tc };
    let ghost newc = Constraint { a: lca, b: lcb, c: lcc, label };
    match cs.enforce(lca, lcb, lcc, label) {
        Ok(u) => u,
        Err(_) => unreached(),
    };
    proof {
        lemma_modulus_large(f);
        let p = modulus(f);
        let vals = cs.values@;
        assert(cs.values@ == mid.values@);
        lemma_tracks_extend(*a, pre, mid);
        lemma_tracks_extend(*b, pre, mid);
        assert(limbs_val(assigned_val(vals, 0)) == 1) by {
            assert(mid.values[0] matches Some(v) && limbs_val(v@) == 1);
        }
        lemma_assigned_bound(mid, a.index as int);
        lemma_assigned_bound(mid, b.index as int);
        lemma_assigned_bound(mid, g.index as int);
        lemma_lc_var_offset(f, vals, newc.a.terms@);
        lemma_lc_var_offset(f, vals, newc.b.terms@);
        lemma_lc_single(f, vals, newc.c.terms@);
        if a.value is Some && b.value is Some {
            assert(lc_val(f, vals, newc.a.terms@) == a.val());
            assert(lc_val(f, vals, newc.b.terms@) == b.val());
            assert(limbs_val(assigned_val(vals, g.index as int)) == (a.val() * b.val()) % p);
            assert(constraint_satisfied(f, vals, newc));
            lemma_seq_pred_push(f, vals, mid.constraints@, newc);
        } else {
            assert(!constraint_assigned(vals, newc)) by {
                if a.value is None {
                    assert(!term_assigned(vals, newc.a.terms@[0]));
                } else {
                    assert(!term_assigned(vals, newc.b.terms@[0]));
                }
            }
            assert(cs.constraints@.last() == newc);
            assert(!cs.fully_assigned());
        }
        assert(cs.constraints@ == mid.constraints@.push(newc));
    }
    Ok(g)
}

/// Forces two gadgets to hold the same value: emits the constraint
/// `(a_var + a_off)·1 = (b_var + b_off)`.  With a concrete witness the
/// system stays satisfied exactly when the two native values are equal;
/// without one the new constraint is reported as missing its assignment.
pub fn enforce_equal_felts(cs: &mut ConstraintSystem, a: &FeltVar, b: &FeltVar, label: String) -> (r:
    Result<(), CsError>)
    requires
        old(cs).wf(),
        a.tracks(*old(cs)),
        b.tracks(*old(cs)),
    ensures
        final(cs).wf(),
        old(cs).finalized ==> r == Err::<(), CsError>(CsError::AlreadyFinalized) && *final(cs)
            == *old(cs),
        !old(cs).finalized ==> {
            &&& r == Ok::<(), CsError>(())
            &&& extends(*old(cs), *final(cs))
            &&& final(cs).num_vars() == old(cs).num_vars()
            &&& final(cs).roles@ == old(cs).roles@
            &&& final(cs).constraints@.len() == old(cs).constraints@.len() + 1
            &&& (a.has_value() && b.has_value() ==> final(cs).all_satisfied() == (old(cs).all_satisfied() && a.val() == b.val()))
            &&& (a.has_value() && b.has_value() ==> (old(cs).fully_assigned() ==> final(cs).fully_assigned()))
            &&& (!(a.has_value() && b.has_value()) ==> !final(cs).fully_assigned())
        },
{
    if cs.finalized {
        return Err(CsError::AlreadyFinalized);
    }
    let f = cs.field;
    let ghost pre = *cs;
    let mut ta: Vec<Term> = Vec::new();
    ta.push(Term { coeff: fe_from_u64(f, 1), var: a.index });
    ta.push(Term { coeff: clone_limbs(&a.offset), var: 0 });
    let mut tb: Vec<Term> = Vec::new();
    tb.push(Term { coeff: fe_from_u64(f, 1), var: 0 });
    let mut tc: Vec<Term> = Vec::new();
    tc.push(Term { coeff: fe_from_u64(f, 1), var: b.index });
    tc.push(Term { coeff: clone_limbs(&b.offset), var: 0 });
    let lca = LinComb { terms: ta };
    let lcb = LinComb { terms: tb };
    let lcc = LinComb { terms: tc };
    let ghost newc = Constraint { a: lca, b: lcb, c: lcc, label };
    match cs.enforce(lca, lcb, lcc, label) {
        Ok(u) => u,
        Err(_) => unreached(),
    };
    proof {
        lemma_modulus_large(f);
        let p = modulus(f);
        let vals = cs.values@;
        assert(cs.values@ == pre.values@);
        assert(limbs_val(assigned_val(vals, 0)) == 1) by {
            assert(pre.values[0] matches Some(v) && limbs_val(v@) == 1);
        }
        lemma_assigned_bound(pre, a.index as int);
        lemma_assigned_bound(pre, b.index as int);
        lemma_lc_var_offset(f, vals, newc.a.terms@);
        lemma_lc_single(f, vals, newc.b.terms@);
        lemma_lc_var_offset(f, vals, newc.c.terms@);
        if a.value is Some && b.value is Some {
            assert(lc_val(f, vals, newc.a.terms@) == a.val());
            assert(lc_val(f, vals, newc.c.terms@) == b.val());
            assert(constraint_satisfied(f, vals, newc) == (a.val() == b.val())) by {
                assert(lc_val(f, vals, newc.b.terms@) == 1);
                assert(a.val() * 1 == a.val()) by (nonlinear_arith);
                lemma_small_mod(a.val(), p);
            }
            lemma_seq_pred_push(f, vals, pre.constraints@, newc);
        } else {
            assert(!constraint_assigned(vals, newc)) by {
                if a.value is None {
                    assert(!term_assigned(vals, newc.a.terms@[0]));
                } else {
                    assert(!term_assigned(vals, newc.c.terms@[0]));
                }
            }
            assert(cs.constraints@.last() == newc);
            assert(!cs.fully_assigned());
        }
        assert(cs.constraints@ == pre.constraints@.push(newc));
    }
    Ok(())
}

/// Extracts the native value; fails when the circuit runs without a witness.
pub fn felt_value(g: &FeltVar) -> (r: Result<Vec<u64>, CsError>)
    ensures
        match r {
            Ok(v) => g.value matches Some(w) && v@ == w@,
            Err(e) => e == CsError::AssignmentMissing && g.value is None,
        },
{
    match clone_opt_value(&g.value) {
        Some(v) => Ok(v),
        None => Err(CsError::AssignmentMissing),
    }
}

} // verus!
