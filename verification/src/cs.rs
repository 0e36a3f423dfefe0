//! The constraint ledger: variables with roles, rank-1 constraints, their
//! satisfaction semantics, finalization and metrics.
//!
//! A constraint is three linear combinations `A`, `B`, `C` over the system's
//! variables; it is satisfied when `A·B = C` under the native field's
//! arithmetic.  Once finalized a system accepts no further variables or
//! constraints; finalizing again is a no-op.
use vstd::prelude::*;

use vstd::arithmetic::div_mod::{
    lemma_add_mod_noop, lemma_fundamental_div_mod_converse, lemma_small_mod,
};

use crate::fields::{canonical, fe_add, fe_from_u64, fe_mul, lemma_modulus_large, limbs_val, modulus, FieldId};

verus! {

/// The role a variable plays: a fixed constant, a public input the verifier
/// sees, or a private witness known to the prover only.
#[derive(Clone, Copy, Debug, PartialEq, Eq, Structural)]
pub enum Role {
    Constant,
    Public,
    Private,
}

/// Whether finalization simplifies the recorded constraints.
#[derive(Clone, Copy, Debug, PartialEq, Eq, Structural)]
pub enum OptGoal {
    /// Keep the constraints exactly as recorded.
    NoOpt,
    /// Drop constraints that are trivially satisfied (all three sides empty).
    Weight,
}

/// Failures of constraint recording and evaluation.
#[derive(Clone, Copy, Debug, PartialEq, Eq, Structural)]
pub enum CsError {
    /// The system is finalized; no variable or constraint can be added.
    AlreadyFinalized,
    /// A native value was required but never supplied.
    AssignmentMissing,
    /// The recorded assignment violates an enforced constraint.
    ConstraintViolation,
    /// Non-native arithmetic would overflow the representable limb capacity.
    CapacityExceeded,
    /// A circuit's shape differs from the shape a key was produced for.
    TopologyMismatch,
}

/// One addend of a linear combination: a canonical coefficient times the
/// variable with index `var`.
pub struct Term {
    pub coeff: Vec<u64>,
    pub var: usize,
}

/// A linear combination of variables.
pub struct LinComb {
    pub terms: Vec<Term>,
}

/// One rank-1 constraint `A·B = C`, with a caller-supplied label.
pub struct Constraint {
    pub a: LinComb,
    pub b: LinComb,
    pub c: LinComb,
    pub label: String,
}

/// Read-only counts describing a constraint system.
#[derive(Clone, Copy, Debug, PartialEq, Eq, Structural)]
pub struct CsMetrics {
    pub num_constraints: usize,
    pub num_instance_variables: usize,
    pub num_witness_variables: usize,
    pub num_constant_variables: usize,
    pub goal: OptGoal,
}

/// The ledger of variables and constraints over one native field.
///
/// Variable 0 always holds the constant one of the field.
pub struct ConstraintSystem {
    pub field: FieldId,
    pub roles: Vec<Role>,
    pub values: Vec<Option<Vec<u64>>>,
    pub constraints: Vec<Constraint>,
    pub goal: OptGoal,
    pub finalized: bool,
}

/// The limb sequence held by an assignment, or the empty sequence where none
/// was supplied.
pub open spec fn assigned_val(vals: Seq<Option<Vec<u64>>>, var: int) -> Seq<u64> {
    if 0 <= var < vals.len() {
        match vals[var] {
            Some(v) => v@,
            None => Seq::empty(),
        }
    } else {
        Seq::empty()
    }
}

pub open spec fn term_assigned(vals: Seq<Option<Vec<u64>>>, t: Term) -> bool {
    t.var < vals.len() && vals[t.var as int] is Some
}

pub open spec fn terms_assigned(vals: Seq<Option<Vec<u64>>>, terms: Seq<Term>) -> bool {
    forall|i: int| 0 <= i < terms.len() ==> term_assigned(vals, #[trigger] terms[i])
}

pub open spec fn lc_assigned(vals: Seq<Option<Vec<u64>>>, lc: LinComb) -> bool {
    terms_assigned(vals, lc.terms@)
}

/// Value of a linear combination under an assignment, reduced mod `f`'s
/// prime after each addend, in recording order.
pub open spec fn lc_val(f: FieldId, vals: Seq<Option<Vec<u64>>>, terms: Seq<Term>) -> nat
    decreases terms.len(),
{
    if terms.len() == 0 {
        0
    } else {
        (lc_val(f, vals, terms.drop_last()) + limbs_val(terms.last().coeff@) * limbs_val(
            assigned_val(vals, terms.last().var as int),
        )) % modulus(f)
    }
}

pub open spec fn constraint_assigned(vals: Seq<Option<Vec<u64>>>, c: Constraint) -> bool {
    lc_assigned(vals, c.a) && lc_assigned(vals, c.b) && lc_assigned(vals, c.c)
}

/// `A·B = C` under the field's arithmetic.
pub open spec fn constraint_satisfied(
    f: FieldId,
    vals: Seq<Option<Vec<u64>>>,
    c: Constraint,
) -> bool {
    (lc_val(f, vals, c.a.terms@) * lc_val(f, vals, c.b.terms@)) % modulus(f) == lc_val(
        f,
        vals,
        c.c.terms@,
    )
}

pub open spec fn seq_assigned(vals: Seq<Option<Vec<u64>>>, s: Seq<Constraint>) -> bool {
    forall|i: int| 0 <= i < s.len() ==> constraint_assigned(vals, #[trigger] s[i])
}

pub open spec fn seq_satisfied(f: FieldId, vals: Seq<Option<Vec<u64>>>, s: Seq<Constraint>) -> bool {
    forall|i: int| 0 <= i < s.len() ==> constraint_satisfied(f, vals, #[trigger] s[i])
}

pub open spec fn term_wf(f: FieldId, nvars: nat, t: Term) -> bool {
    t.var < nvars && canonical(f, t.coeff@)
}

pub open spec fn lc_wf(f: FieldId, nvars: nat, lc: LinComb) -> bool {
    forall|i: int| 0 <= i < lc.terms.len() ==> term_wf(f, nvars, #[trigger] lc.terms[i])
}

pub open spec fn constraint_wf(f: FieldId, nvars: nat, c: Constraint) -> bool {
    lc_wf(f, nvars, c.a) && lc_wf(f, nvars, c.b) && lc_wf(f, nvars, c.c)
}

/// A constraint whose three sides are all empty; it holds under any
/// assignment (`0·0 = 0`) and carries no weight.
pub open spec fn trivial_constraint(c: Constraint) -> bool {
    c.a.terms.len() == 0 && c.b.terms.len() == 0 && c.c.terms.len() == 0
}

/// The recorded constraints with the trivially satisfied ones dropped.
pub open spec fn drop_trivial(s: Seq<Constraint>) -> Seq<Constraint>
    decreases s.len(),
{
    if s.len() == 0 {
        s
    } else if trivial_constraint(s.last()) {
        drop_trivial(s.drop_last())
    } else {
        drop_trivial(s.drop_last()).push(s.last())
    }
}

impl ConstraintSystem {
    pub open spec fn num_vars(self) -> nat {
        self.roles.len() as nat
    }

    /// Structural well-formedness: parallel role/value vectors, variable 0 the
    /// constant one, every supplied value canonical, every constant supplied,
    /// every constraint over in-range variables with canonical coefficients.
    pub open spec fn wf(self) -> bool {
        &&& self.roles.len() == self.values.len()
        &&& self.roles.len() >= 1
        &&& self.roles[0] == Role::Constant
        &&& (self.values[0] matches Some(v) && limbs_val(v@) == 1)
        &&& forall|i: int|
            0 <= i < self.values.len() ==> (#[trigger] self.values[i] matches Some(v) ==> canonical(
                self.field,
                v@,
            ))
        &&& forall|i: int|
            0 <= i < self.roles.len() ==> (#[trigger] self.roles[i] == Role::Constant
                ==> self.values[i] is Some)
        &&& forall|i: int|
            0 <= i < self.constraints.len() ==> constraint_wf(
                self.field,
                self.num_vars(),
                #[trigger] self.constraints[i],
            )
    }

    /// Every recorded constraint mentions only assigned variables.
    pub open spec fn fully_assigned(self) -> bool {
        seq_assigned(self.values@, self.constraints@)
    }

    /// Every recorded constraint holds under the recorded assignment.
    pub open spec fn all_satisfied(self) -> bool {
        seq_satisfied(self.field, self.values@, self.constraints@)
    }

    pub open spec fn count_role(roles: Seq<Role>, r: Role) -> nat
        decreases roles.len(),
    {
        if roles.len() == 0 {
            0
        } else {
            Self::count_role(roles.drop_last(), r) + if roles.last() == r {
                1nat
            } else {
                0nat
            }
        }
    }

    pub open spec fn spec_metrics(self) -> CsMetrics {
        CsMetrics {
            num_constraints: self.constraints.len() as usize,
            num_instance_variables: Self::count_role(self.roles@, Role::Public) as usize,
            num_witness_variables: Self::count_role(self.roles@, Role::Private) as usize,
            num_constant_variables: Self::count_role(self.roles@, Role::Constant) as usize,
            goal: self.goal,
        }
    }

    /// How `finalize` relates the state before the call to the state after:
    /// everything is kept but the constraint list, which on the first call
    /// under the `Weight` goal loses its trivially satisfied members.
    pub open spec fn finalize_rel(pre: ConstraintSystem, post: ConstraintSystem) -> bool {
        &&& post.finalized
        &&& post.field == pre.field
        &&& post.goal == pre.goal
        &&& post.roles@ == pre.roles@
        &&& post.values@ == pre.values@
        &&& post.constraints@ == if pre.finalized {
            pre.constraints@
        } else if pre.goal == OptGoal::Weight {
            drop_trivial(pre.constraints@)
        } else {
            pre.constraints@
        }
    }

    /// A fresh, unfinalized system over `field` holding only the constant one.
    pub fn new(field: FieldId, goal: OptGoal) -> (r: ConstraintSystem)
        ensures
            r.wf(),
            !r.finalized,
            r.field == field,
            r.goal == goal,
            r.num_vars() == 1,
            r.constraints@.len() == 0,
            r.fully_assigned(),
            r.all_satisfied(),
    {
        let one = fe_from_u64(field, 1);
        let mut roles: Vec<Role> = Vec::new();
        let mut values: Vec<Option<Vec<u64>>> = Vec::new();
        roles.push(Role::Constant);
        values.push(Some(one));
        ConstraintSystem { field, roles, values, constraints: Vec::new(), goal, finalized: false }
    }

    /// Binds a fresh variable with the given role and optional native value.
    ///
    /// Fails on a finalized system, and on a constant allocated without its
    /// value (a constant is fixed; there is nothing to defer).
    pub fn allocate(&mut self, role: Role, value: Option<Vec<u64>>) -> (r: Result<usize, CsError>)
        requires
            old(self).wf(),
            value matches Some(v) ==> canonical(old(self).field, v@),
        ensures
            final(self).wf(),
            old(self).finalized ==> r == Err::<usize, CsError>(CsError::AlreadyFinalized)
                && *final(self) == *old(self),
            !old(self).finalized && role == Role::Constant && value is None ==> r == Err::<
                usize,
                CsError,
            >(CsError::AssignmentMissing) && *final(self) == *old(self),
            !old(self).finalized && (role != Role::Constant || value is Some) ==> {
                &&& r == Ok::<usize, CsError>(old(self).num_vars() as usize)
                &&& final(self).roles@ == old(self).roles@.push(role)
                &&& final(self).values@ == old(self).values@.push(value)
                &&& final(self).constraints@ == old(self).constraints@
                &&& final(self).field == old(self).field
                &&& final(self).goal == old(self).goal
                &&& final(self).finalized == old(self).finalized
            },
    {
        if self.finalized {
            return Err(CsError::AlreadyFinalized);
        }
        if matches!(role, Role::Constant) && value.is_none() {
            return Err(CsError::AssignmentMissing);
        }
        let idx = self.roles.len();
        self.roles.push(role);
        self.values.push(value);
        Ok(idx)
    }

    /// Records the constraint `a·b = c`; fails on a finalized system.
    pub fn enforce(&mut self, a: LinComb, b: LinComb, c: LinComb, label: String) -> (r: Result<
        (),
        CsError,
    >)
        requires
            old(self).wf(),
            lc_wf(old(self).field, old(self).num_vars(), a),
            lc_wf(old(self).field, old(self).num_vars(), b),
            lc_wf(old(self).field, old(self).num_vars(), c),
        ensures
            final(self).wf(),
            old(self).finalized ==> r == Err::<(), CsError>(CsError::AlreadyFinalized) && *final(self) == *old(self),
            !old(self).finalized ==> {
                &&& r == Ok::<(), CsError>(())
                &&& final(self).constraints@ == old(self).constraints@.push(
                    Constraint { a, b, c, label },
                )
                &&& final(self).roles@ == old(self).roles@
                &&& final(self).values@ == old(self).values@
                &&& final(self).field == old(self).field
                &&& final(self).goal == old(self).goal
                &&& final(self).finalized == old(self).finalized
            },
    {
        if self.finalized {
            return Err(CsError::AlreadyFinalized);
        }
        self.constraints.push(Constraint { a, b, c, label });
        Ok(())
    }

    /// Evaluates one linear combination under the recorded assignment.
    pub fn eval_lc(&self, lc: &LinComb) -> (r: Result<Vec<u64>, CsError>)
        requires
            self.wf(),
            lc_wf(self.field, self.num_vars(), *lc),
        ensures
            match r {
                Ok(v) => {
                    &&& lc_assigned(self.values@, *lc)
                    &&& canonical(self.field, v@)
                    &&& limbs_val(v@) == lc_val(self.field, self.values@, lc.terms@)
                },
                Err(e) => e == CsError::AssignmentMissing && !lc_assigned(self.values@, *lc),
            },
    {
        let f = self.field;
        let mut acc = fe_from_u64(f, 0);
        let mut i: usize = 0;
        proof {
            assert(lc.terms@.take(0) =~= Seq::<Term>::empty());
        }
        while i < lc.terms.len()
            invariant
                self.wf(),
                lc_wf(self.field, self.num_vars(), *lc),
                f == self.field,
                i <= lc.terms.len(),
                canonical(f, acc@),
                limbs_val(acc@) == lc_val(f, self.values@, lc.terms@.take(i as int)),
                forall|j: int| 0 <= j < i ==> term_assigned(self.values@, #[trigger] lc.terms[j]),
            decreases lc.terms.len() - i,
        {
            let t = &lc.terms[i];
            assert(term_wf(f, self.num_vars(), lc.terms[i as int]));
            match &self.values[t.var] {
                Some(v) => {
                    let prod = fe_mul(f, &t.coeff, v);
                    let next = fe_add(f, &acc, &prod);
                    proof {
                        let p = modulus(f);
                        let a = limbs_val(acc@) as int;
                        let cv = (limbs_val(t.coeff@) * limbs_val(v@)) as int;
                        lemma_small_mod(limbs_val(acc@), p);
                        lemma_add_mod_noop(a, cv, p as int);
                        assert(lc.terms@.take(i + 1).drop_last() =~= lc.terms@.take(i as int));
                        assert(lc.terms@.take(i + 1).last() == lc.terms[i as int]);
                        assert(assigned_val(self.values@, t.var as int) == v@);
                    }
                    acc = next;
                },
                None => {
                    proof {
                        assert(!term_assigned(self.values@, lc.terms[i as int]));
                    }
                    return Err(CsError::AssignmentMissing);
                },
            }
            i += 1;
        }
        proof {
            assert(lc.terms@.take(lc.terms@.len() as int) =~= lc.terms@);
        }
        Ok(acc)
    }

    /// Evaluates every constraint under the recorded assignment; fails when a
    /// constrained variable was never supplied a value.
    pub fn is_satisfied(&self) -> (r: Result<bool, CsError>)
        requires
            self.wf(),
        ensures
            match r {
                Ok(b) => self.fully_assigned() && b == self.all_satisfied(),
                Err(e) => e == CsError::AssignmentMissing && !self.fully_assigned(),
            },
    {
        let f = self.field;
        let mut ok = true;
        let mut i: usize = 0;
        while i < self.constraints.len()
            invariant
                self.wf(),
                f == self.field,
                i <= self.constraints.len(),
                forall|j: int|
                    0 <= j < i ==> constraint_assigned(self.values@, #[trigger] self.constraints[j]),
                ok == seq_satisfied(f, self.values@, self.constraints@.take(i as int)),
            decreases self.constraints.len() - i,
        {
            let c = &self.constraints[i];
            let va = match self.eval_lc(&c.a) {
                Ok(v) => v,
                Err(e) => {
                    proof {
                        assert(!constraint_assigned(self.values@, self.constraints[i as int]));
                    }
                    return Err(CsError::AssignmentMissing);
                },
            };
            let vb = match self.eval_lc(&c.b) {
                Ok(v) => v,
                Err(e) => {
                    proof {
                        assert(!constraint_assigned(self.values@, self.constraints[i as int]));
                    }
                    return Err(CsError::AssignmentMissing);
                },
            };
            let vc = match self.eval_lc(&c.c) {
                Ok(v) => v,
                Err(e) => {
                    proof {
                        assert(!constraint_assigned(self.values@, self.constraints[i as int]));
                    }
                    return Err(CsError::AssignmentMissing);
                },
            };
            let prod = fe_mul(f, &va, &vb);
            let holds = limbs_eq(&prod, &vc);
            proof {
                if holds {
                    assert(constraint_satisfied(f, self.values@, self.constraints[i as int]));
                } else {
                    if constraint_satisfied(f, self.values@, self.constraints[i as int]) {
                        lemma_limbs_val_injective(prod@, vc@);
                    }
                    assert(!constraint_satisfied(f, self.values@, self.constraints[i as int]));
                }
                assert(self.constraints@.take(i + 1).drop_last() =~= self.constraints@.take(
                    i as int,
                ));
                assert(self.constraints@.take(i + 1).last() == self.constraints[i as int]);
                if !(ok && holds) {
                    let bad: int = if !ok {
                        choose|j: int|
                            0 <= j < i && !constraint_satisfied(
                                f,
                                self.values@,
                                #[trigger] self.constraints@.take(i as int)[j],
                            )
                    } else {
                        i as int
                    };
                    assert(!constraint_satisfied(
                        f,
                        self.values@,
                        self.constraints@.take(i + 1)[bad],
                    ));
                }
            }
            ok = ok && holds;
            i += 1;
        }
        proof {
            assert(self.constraints@.take(self.constraints@.len() as int) =~= self.constraints@);
        }
        Ok(ok)
    }

    /// Applies the optimization goal once and locks the system.  Calling it
    /// again is a no-op, never an error.
    pub fn finalize(&mut self)
        requires
            old(self).wf(),
        ensures
            final(self).wf(),
            Self::finalize_rel(*old(self), *final(self)),
    {
        if self.finalized {
            return ;
        }
        self.finalized = true;
        if matches!(self.goal, OptGoal::Weight) {
            let ghost orig = self.constraints@;
            let ghost target = drop_trivial(orig);
            proof {
                lemma_drop_trivial_members(orig);
                assert(target.take(target.len() as int) =~= target);
            }
            let mut stack: Vec<Constraint> = Vec::new();
            while self.constraints.len() > 0
                invariant
                    drop_trivial(self.constraints@) == target.take(
                        target.len() - stack.len() as int,
                    ),
                    stack.len() <= target.len(),
                    forall|j: int|
                        0 <= j < stack.len() ==> stack@[j] == target[target.len() - 1 - j],
                    self.roles@ == old(self).roles@,
                    self.values@ == old(self).values@,
                    self.field == old(self).field,
                    self.goal == old(self).goal,
                    self.finalized,
                    target == drop_trivial(orig),
                decreases self.constraints.len(),
            {
                let ghost rem = self.constraints@;
                let ghost k = target.len() - stack.len() as int;
                let c = self.constraints.pop().unwrap();
                if !(c.a.terms.len() == 0 && c.b.terms.len() == 0 && c.c.terms.len() == 0) {
                    proof {
                        assert(!trivial_constraint(c));
                        assert(c == rem.last());
                        assert(drop_trivial(rem) == drop_trivial(rem.drop_last()).push(c));
                        assert(drop_trivial(rem).len() == k);
                        assert(k >= 1);
                        assert(target.take(k).last() == c);
                        assert(target[k - 1] == c);
                        assert forall|j: int|
                            0 <= j < drop_trivial(rem.drop_last()).len() implies drop_trivial(
                            rem.drop_last(),
                        )[j] == target.take(k - 1)[j] by {
                            assert(drop_trivial(rem)[j] == target.take(k)[j]);
                        }
                        assert(drop_trivial(rem.drop_last()) =~= target.take(k - 1));
                    }
                    stack.push(c);
                } else {
                    proof {
                        assert(trivial_constraint(c));
                        assert(drop_trivial(rem) == drop_trivial(rem.drop_last()));
                    }
                }
            }
            proof {
                assert(self.constraints@.len() == 0);
                assert(drop_trivial(self.constraints@) =~= Seq::<Constraint>::empty());
                assert(stack.len() == target.len());
            }
            while stack.len() > 0
                invariant
                    self.constraints@ == target.take(self.constraints@.len() as int),
                    self.constraints@.len() + stack.len() == target.len(),
                    forall|j: int|
                        0 <= j < stack.len() ==> stack@[j] == target[target.len() - 1 - j],
                    self.roles@ == old(self).roles@,
                    self.values@ == old(self).values@,
                    self.field == old(self).field,
                    self.goal == old(self).goal,
                    self.finalized,
                    target == drop_trivial(orig),
                decreases stack.len(),
            {
                let ghost j = self.constraints@.len() as int;
                let c = stack.pop().unwrap();
                proof {
                    assert(c == target[j]);
                }
                self.constraints.push(c);
                proof {
                    assert(self.constraints@ =~= target.take(j + 1));
                }
            }
            proof {
                assert(self.constraints@ =~= target);
                assert forall|i: int| 0 <= i < self.constraints@.len() implies constraint_wf(
                    self.field,
                    self.num_vars(),
                    #[trigger] self.constraints@[i],
                ) by {
                    assert(drop_trivial(orig)[i] == target[i]);
                    let j = choose|j: int| 0 <= j < orig.len() && drop_trivial(orig)[i] == orig[j];
                    assert(constraint_wf(old(self).field, old(self).num_vars(), orig[j]));
                }
            }
        }
    }

    /// Read-only counts, valid before or after finalization.
    pub fn metrics(&self) -> (r: CsMetrics)
        ensures
            r == self.spec_metrics(),
    {
        let mut n_pub: usize = 0;
        let mut n_priv: usize = 0;
        let mut n_const: usize = 0;
        let mut i: usize = 0;
        while i < self.roles.len()
            invariant
                i <= self.roles.len(),
                n_pub == Self::count_role(self.roles@.take(i as int), Role::Public),
                n_priv == Self::count_role(self.roles@.take(i as int), Role::Private),
                n_const == Self::count_role(self.roles@.take(i as int), Role::Constant),
                n_pub <= i && n_priv <= i && n_const <= i,
            decreases self.roles.len() - i,
        {
            proof {
                assert(self.roles@.take(i + 1).drop_last() =~= self.roles@.take(i as int));
                assert(self.roles@.take(i + 1).last() == self.roles@[i as int]);
            }
            match self.roles[i] {
                Role::Public => n_pub += 1,
                Role::Private => n_priv += 1,
                Role::Constant => n_const += 1,
            }
            i += 1;
        }
        proof {
            assert(self.roles@.take(self.roles@.len() as int) =~= self.roles@);
        }
        CsMetrics {
            num_constraints: self.constraints.len(),
            num_instance_variables: n_pub,
            num_witness_variables: n_priv,
            num_constant_variables: n_const,
            goal: self.goal,
        }
    }

    /// The label of the constraint at `i`, for reporting.
    pub fn constraint_label(&self, i: usize) -> (r: &String)
        requires
            i < self.constraints@.len(),
        ensures
            *r == self.constraints@[i as int].label,
    {
        &self.constraints[i].label
    }
}

/// Limb-by-limb equality of two representations.
pub fn limbs_eq(a: &Vec<u64>, b: &Vec<u64>) -> (r: bool)
    ensures
        r == (a@ == b@),
{
    if a.len() != b.len() {
        return false;
    }
    let mut i: usize = 0;
    while i < a.len()
        invariant
            i <= a.len(),
            a@.len() == b@.len(),
            forall|j: int| 0 <= j < i ==> a@[j] == b@[j],
        decreases a.len() - i,
    {
        if a[i] != b[i] {
            return false;
        }
        i += 1;
    }
    proof {
        assert(a@ =~= b@);
    }
    true
}

/// Two limb sequences of the same length encoding the same integer are equal:
/// the canonical representation is unique.
pub proof fn lemma_limbs_val_injective(s1: Seq<u64>, s2: Seq<u64>)
    requires
        s1.len() == s2.len(),
        limbs_val(s1) == limbs_val(s2),
    ensures
        s1 == s2,
    decreases s1.len(),
{
    if s1.len() > 0 {
        let t1 = s1.subrange(1, s1.len() as int);
        let t2 = s2.subrange(1, s2.len() as int);
        let b: int = 0x10000000000000000;
        lemma_fundamental_div_mod_converse(
            limbs_val(s1) as int,
            b,
            limbs_val(t1) as int,
            s1[0] as int,
        );
        lemma_fundamental_div_mod_converse(
            limbs_val(s2) as int,
            b,
            limbs_val(t2) as int,
            s2[0] as int,
        );
        lemma_limbs_val_injective(t1, t2);
        assert forall|i: int| 0 <= i < s1.len() implies s1[i] == s2[i] by {
            if i > 0 {
                assert(t1[i - 1] == s1[i]);
                assert(t2[i - 1] == s2[i]);
            }
        }
        assert(s1 =~= s2);
    } else {
        assert(s1 =~= s2);
    }
}

/// Every member of the thinned constraint list is a member of the original.
pub proof fn lemma_drop_trivial_members(s: Seq<Constraint>)
    ensures
        forall|i: int|
            0 <= i < drop_trivial(s).len() ==> exists|j: int|
                0 <= j < s.len() && #[trigger] drop_trivial(s)[i] == #[trigger] s[j],
    decreases s.len(),
{
    if s.len() > 0 {
        lemma_drop_trivial_members(s.drop_last());
        assert forall|i: int| 0 <= i < drop_trivial(s).len() implies exists|j: int|
            0 <= j < s.len() && #[trigger] drop_trivial(s)[i] == #[trigger] s[j] by {
            let d = drop_trivial(s.drop_last());
            if i < d.len() {
                assert(drop_trivial(s)[i] == d[i]);
                let j = choose|j: int|
                    0 <= j < s.drop_last().len() && #[trigger] d[i] == #[trigger] s.drop_last()[j];
                assert(s.drop_last()[j] == s[j]);
                assert(drop_trivial(s)[i] == s[j]);
            } else {
                assert(drop_trivial(s)[i] == s[s.len() - 1]);
            }
        }
    }
}

/// Thinning the constraint list changes neither which assignments are missing
/// nor whether the system is satisfied: the dropped constraints hold under
/// every assignment.
pub proof fn lemma_drop_trivial_faithful(f: FieldId, vals: Seq<Option<Vec<u64>>>, s: Seq<Constraint>)
    ensures
        seq_satisfied(f, vals, drop_trivial(s)) == seq_satisfied(f, vals, s),
        seq_assigned(vals, s) ==> seq_assigned(vals, drop_trivial(s)),
    decreases s.len(),
{
    if s.len() > 0 {
        lemma_drop_trivial_faithful(f, vals, s.drop_last());
        let d = drop_trivial(s.drop_last());
        if trivial_constraint(s.last()) {
            lemma_modulus_large(f);
            assert(lc_val(f, vals, s.last().a.terms@) == 0);
            assert(lc_val(f, vals, s.last().b.terms@) == 0);
            assert(lc_val(f, vals, s.last().c.terms@) == 0);
            lemma_small_mod(0, modulus(f));
            assert((lc_val(f, vals, s.last().a.terms@) * lc_val(f, vals, s.last().b.terms@))
                == 0);
            assert(constraint_satisfied(f, vals, s.last()));
            assert(seq_satisfied(f, vals, s.drop_last()) == seq_satisfied(f, vals, s)) by {
                if seq_satisfied(f, vals, s.drop_last()) {
                    assert forall|i: int| 0 <= i < s.len() implies constraint_satisfied(
                        f,
                        vals,
                        #[trigger] s[i],
                    ) by {
                        if i < s.len() - 1 {
                            assert(s[i] == s.drop_last()[i]);
                        }
                    }
                } else {
                    let i = choose|i: int|
                        0 <= i < s.drop_last().len() && !constraint_satisfied(
                            f,
                            vals,
                            #[trigger] s.drop_last()[i],
                        );
                    assert(s[i] == s.drop_last()[i]);
                }
            }
        } else {
            assert(seq_satisfied(f, vals, d.push(s.last())) == (seq_satisfied(f, vals, d)
                && constraint_satisfied(f, vals, s.last()))) by {
                lemma_seq_pred_push(f, vals, d, s.last());
            }
            assert(seq_satisfied(f, vals, s) == (seq_satisfied(f, vals, s.drop_last())
                && constraint_satisfied(f, vals, s.last()))) by {
                assert(s.drop_last().push(s.last()) =~= s);
                lemma_seq_pred_push(f, vals, s.drop_last(), s.last());
            }
            if seq_assigned(vals, s) {
                assert(seq_assigned(vals, s.drop_last())) by {
                    assert(forall|i: int|
                        0 <= i < s.drop_last().len() ==> #[trigger] s.drop_last()[i] == s[i]);
                }
                assert(seq_assigned(vals, d.push(s.last()))) by {
                    assert(forall|i: int| 0 <= i < d.len() ==> #[trigger] d.push(s.last())[i] == d[i]);
                    assert(d.push(s.last()).last() == s.last());
                }
            }
        }
    }
}

/// Satisfaction of a pushed constraint list splits into the list and the
/// new constraint.
pub proof fn lemma_seq_pred_push(
    f: FieldId,
    vals: Seq<Option<Vec<u64>>>,
    s: Seq<Constraint>,
    c: Constraint,
)
    ensures
        seq_satisfied(f, vals, s.push(c)) == (seq_satisfied(f, vals, s) && constraint_satisfied(
            f,
            vals,
            c,
        )),
        seq_assigned(vals, s.push(c)) == (seq_assigned(vals, s) && constraint_assigned(vals, c)),
{
    assert(s.push(c)[s.len() as int] == c);
    assert(forall|i: int| 0 <= i < s.len() ==> #[trigger] s.push(c)[i] == s[i]);
    if seq_satisfied(f, vals, s) && constraint_satisfied(f, vals, c) {
        assert forall|i: int| 0 <= i < s.push(c).len() implies constraint_satisfied(
            f,
            vals,
            #[trigger] s.push(c)[i],
        ) by {
            if i < s.len() {
                assert(s.push(c)[i] == s[i]);
            }
        }
    }
    if seq_satisfied(f, vals, s.push(c)) {
        assert forall|i: int| 0 <= i < s.len() implies constraint_satisfied(
            f,
            vals,
            #[trigger] s[i],
        ) by {
            assert(constraint_satisfied(f, vals, s.push(c)[i]));
        }
        assert(constraint_satisfied(f, vals, s.push(c)[s.len() as int]));
    }
    if seq_assigned(vals, s) && constraint_assigned(vals, c) {
        assert forall|i: int| 0 <= i < s.push(c).len() implies constraint_assigned(
            vals,
            #[trigger] s.push(c)[i],
        ) by {
            if i < s.len() {
                assert(s.push(c)[i] == s[i]);
            }
        }
    }
    if seq_assigned(vals, s.push(c)) {
        assert forall|i: int| 0 <= i < s.len() implies constraint_assigned(
            vals,
            #[trigger] s[i],
        ) by {
            assert(constraint_assigned(vals, s.push(c)[i]));
        }
        assert(constraint_assigned(vals, s.push(c)[s.len() as int]));
    }
}

/// A linear combination over existing variables keeps its value and its
/// assignment status when a fresh variable is bound.
pub proof fn lemma_lc_val_extend(
    f: FieldId,
    vals: Seq<Option<Vec<u64>>>,
    x: Option<Vec<u64>>,
    terms: Seq<Term>,
)
    requires
        forall|i: int| 0 <= i < terms.len() ==> (#[trigger] terms[i]).var < vals.len(),
    ensures
        lc_val(f, vals.push(x), terms) == lc_val(f, vals, terms),
        terms_assigned(vals.push(x), terms) == terms_assigned(vals, terms),
    decreases terms.len(),
{
    if terms.len() > 0 {
        assert(forall|i: int|
            0 <= i < terms.drop_last().len() ==> (#[trigger] terms.drop_last()[i]).var
                < vals.len());
        lemma_lc_val_extend(f, vals, x, terms.drop_last());
        let t = terms.last();
        assert(vals.push(x)[t.var as int] == vals[t.var as int]);
        assert(assigned_val(vals.push(x), t.var as int) == assigned_val(vals, t.var as int));
        assert(terms_assigned(vals.push(x), terms) == terms_assigned(vals, terms)) by {
            if terms_assigned(vals, terms) {
                assert forall|i: int| 0 <= i < terms.len() implies term_assigned(
                    vals.push(x),
                    #[trigger] terms[i],
                ) by {
                    assert(vals.push(x)[terms[i].var as int] == vals[terms[i].var as int]);
                }
            }
            if terms_assigned(vals.push(x), terms) {
                assert forall|i: int| 0 <= i < terms.len() implies term_assigned(
                    vals,
                    #[trigger] terms[i],
                ) by {
                    assert(vals.push(x)[terms[i].var as int] == vals[terms[i].var as int]);
                }
            }
        }
    }
}

/// Binding a fresh variable never changes whether the recorded constraints
/// are satisfied or assigned.
pub proof fn lemma_seq_satisfied_extend(
    f: FieldId,
    vals: Seq<Option<Vec<u64>>>,
    x: Option<Vec<u64>>,
    s: Seq<Constraint>,
)
    requires
        forall|i: int| 0 <= i < s.len() ==> constraint_wf(f, vals.len() as nat, #[trigger] s[i]),
    ensures
        seq_satisfied(f, vals.push(x), s) == seq_satisfied(f, vals, s),
        seq_assigned(vals.push(x), s) == seq_assigned(vals, s),
{
    assert forall|i: int| 0 <= i < s.len() implies (constraint_satisfied(f, vals.push(x), #[trigger] s[i])
        == constraint_satisfied(f, vals, s[i]) && constraint_assigned(vals.push(x), s[i])
        == constraint_assigned(vals, s[i])) by {
        lemma_lc_val_extend(f, vals, x, s[i].a.terms@);
        lemma_lc_val_extend(f, vals, x, s[i].b.terms@);
        lemma_lc_val_extend(f, vals, x, s[i].c.terms@);
    }
    assert(seq_satisfied(f, vals.push(x), s) == seq_satisfied(f, vals, s)) by {
        if seq_satisfied(f, vals, s) {
            assert forall|i: int| 0 <= i < s.len() implies constraint_satisfied(
                f,
                vals.push(x),
                #[trigger] s[i],
            ) by {}
        }
        if seq_satisfied(f, vals.push(x), s) {
            assert forall|i: int| 0 <= i < s.len() implies constraint_satisfied(
                f,
                vals,
                #[trigger] s[i],
            ) by {}
        }
    }
    assert(seq_assigned(vals.push(x), s) == seq_assigned(vals, s)) by {
        if seq_assigned(vals, s) {
            assert forall|i: int| 0 <= i < s.len() implies constraint_assigned(
                vals.push(x),
                #[trigger] s[i],
            ) by {}
        }
        if seq_assigned(vals.push(x), s) {
            assert forall|i: int| 0 <= i < s.len() implies constraint_assigned(
                vals,
                #[trigger] s[i],
            ) by {}
        }
    }
}

/// Finalizing a system twice reports the same metrics as finalizing it once:
/// the second call is a no-op.
pub proof fn lemma_finalize_idempotent(
    cs0: ConstraintSystem,
    cs1: ConstraintSystem,
    cs2: ConstraintSystem,
)
    requires
        ConstraintSystem::finalize_rel(cs0, cs1),
        ConstraintSystem::finalize_rel(cs1, cs2),
    ensures
        cs2.spec_metrics() == cs1.spec_metrics(),
        cs2.constraints@ == cs1.constraints@,
{
}

/// Finalization changes neither satisfaction nor which assignments are
/// missing: only trivially satisfied constraints are dropped.
pub proof fn lemma_finalize_faithful(pre: ConstraintSystem, post: ConstraintSystem)
    requires
        ConstraintSystem::finalize_rel(pre, post),
    ensures
        post.all_satisfied() == pre.all_satisfied(),
        pre.fully_assigned() ==> post.fully_assigned(),
{
    lemma_drop_trivial_faithful(pre.field, pre.values@, pre.constraints@);
}

} // verus!
