//! The non-native field emulation layer: elements of the scalar field
//! represented inside a base-field constraint system as a vector of bounded
//! limbs, with lazy reduction.
//!
//! A limb holds up to thirty-two value bits when the representation is
//! reduced; additions and unreduced multiplications let the per-limb bound
//! grow.  Before any step that would push a limb past the declared capacity
//! (chosen so a limb always fits both a `u128` and a base-field element,
//! with room for a full convolution of reduced operands), the operation
//! fails with `CapacityExceeded` instead of wrapping.
use vstd::prelude::*;
use vstd::pervasive::unreached;
use vstd::pervasive::VecAdditionalExecFns;

use vstd::arithmetic::div_mod::{lemma_add_mod_noop, lemma_small_mod};

use crate::cs::{ConstraintSystem, CsError, Role};
use crate::fields::{canonical, fe_from_u128, fq_modulus, fr_modulus, limbs_val, FieldId};
use crate::gadgets::felt::{add_felts, alloc_felt, extends, lemma_extends_trans, roles_after, wrap_var, FeltVar};

verus! {

/// Weight of one limb position: limbs are base `2^32`.
pub open spec fn limb_base() -> nat {
    0x100000000
}

/// The exclusive bound a limb's value may never reach: `2^120`.  A full
/// convolution of reduced eight-limb operands stays far below it, and any
/// value below it fits a `u128` and a base-field element.
pub open spec fn capacity() -> nat {
    0x1000000000000000000000000000000
}

/// The integer a limb vector encodes: base-`2^32` positional value.
pub open spec fn weighted(s: Seq<u128>) -> nat
    decreases s.len(),
{
    if s.len() == 0 {
        0
    } else {
        s[0] as nat + limb_base() * weighted(s.subrange(1, s.len() as int))
    }
}

/// The scalar-field element a limb vector stands for.
pub open spec fn em_value(s: Seq<u128>) -> nat {
    weighted(s) % fr_modulus()
}

/// An emulated scalar-field element inside a base-field constraint system:
/// one variable per limb, the optional limb values, and the exclusive bound
/// the limbs obey (tracked also in witness-free evaluation, so the capacity
/// checks fire identically).
pub struct EmulatedVar {
    pub indices: Vec<usize>,
    pub limbs: Option<Vec<u128>>,
    pub bound: u128,
}

impl EmulatedVar {
    pub open spec fn tracks(self, cs: ConstraintSystem) -> bool {
        &&& 0 < self.bound as nat <= capacity()
        &&& self.indices@.len() >= 1
        &&& forall|i: int|
            0 <= i < self.indices@.len() ==> (#[trigger] self.indices@[i]) < cs.num_vars()
        &&& forall|i: int|
            0 <= i < self.indices@.len() ==> cs.roles[(#[trigger] self.indices@[i]) as int]
                != Role::Constant
        &&& (self.limbs is None ==> (forall|i: int|
            0 <= i < self.indices@.len() ==> cs.values[#[trigger] self.indices@[i] as int]
                is None))
        &&& (self.limbs is Some ==> (forall|i: int|
            0 <= i < self.indices@.len() ==> cs.values[#[trigger] self.indices@[i] as int]
                is Some))
        &&& (self.limbs matches Some(v) ==> {
            &&& v@.len() == self.indices@.len()
            &&& (forall|i: int| 0 <= i < v@.len() ==> (#[trigger] v@[i]) < self.bound)
            &&& (forall|i: int|
                0 <= i < v@.len() ==> (cs.values[#[trigger] self.indices@[i] as int] matches Some(
                    w,
                ) && limbs_val(w@) == v@[i] as nat))
        })
    }

    pub open spec fn has_value(self) -> bool {
        self.limbs is Some
    }

    /// The scalar-field element carried (zero where none is carried).
    pub open spec fn val(self) -> nat {
        match self.limbs {
            Some(v) => em_value(v@),
            None => 0,
        }
    }
}

/// Emulated tracking survives any extension of the constraint system.
pub proof fn lemma_em_tracks_extend(g: EmulatedVar, pre: ConstraintSystem, post: ConstraintSystem)
    requires
        g.tracks(pre),
        extends(pre, post),
    ensures
        g.tracks(post),
{
    assert forall|i: int| 0 <= i < g.indices@.len() implies post.values@[(#[trigger] g.indices@[i]) as int]
        == pre.values@[g.indices@[i] as int] && post.roles@[g.indices@[i] as int]
        == pre.roles@[g.indices@[i] as int] by {}
}

/// The sum of two limb vectors of one length encodes the sum of the encoded
/// integers.
pub proof fn lemma_weighted_add(x: Seq<u128>, y: Seq<u128>, z: Seq<u128>)
    requires
        x.len() == y.len() && y.len() == z.len(),
        forall|i: int| 0 <= i < z.len() ==> (#[trigger] z[i]) as nat == x[i] as nat + y[i] as nat,
    ensures
        weighted(z) == weighted(x) + weighted(y),
    decreases x.len(),
{
    if x.len() > 0 {
        let xt = x.subrange(1, x.len() as int);
        let yt = y.subrange(1, y.len() as int);
        let zt = z.subrange(1, z.len() as int);
        assert(forall|i: int|
            0 <= i < zt.len() ==> (#[trigger] zt[i]) as nat == xt[i] as nat + yt[i] as nat);
        lemma_weighted_add(xt, yt, zt);
    }
}

/// The weight of limb position `e`: the limb base raised to `e`.
pub open spec fn wpow(e: nat) -> nat
    decreases e,
{
    if e == 0 {
        1
    } else {
        limb_base() * wpow((e - 1) as nat)
    }
}

/// Appending a limb adds its positional value.
pub proof fn lemma_weighted_push(s: Seq<u128>, x: u128)
    ensures
        weighted(s.push(x)) == weighted(s) + wpow(s.len()) * x,
    decreases s.len(),
{
    if s.len() == 0 {
        assert(s.push(x).subrange(1, 1) =~= Seq::<u128>::empty());
        assert(s.push(x)[0] == x);
        assert(weighted(s.push(x).subrange(1, 1)) == 0);
        assert(weighted(s.push(x)) == x as nat + limb_base() * 0);
        assert(wpow(0) * x == x) by (nonlinear_arith);
    } else {
        let t = s.subrange(1, s.len() as int);
        assert(s.push(x).subrange(1, s.len() as int + 1) =~= t.push(x));
        lemma_weighted_push(t, x);
        assert(weighted(s.push(x)) == s[0] as nat + limb_base() * (weighted(t) + wpow(t.len())
            * x));
        assert(limb_base() * (weighted(t) + wpow(t.len()) * x) == limb_base() * weighted(t) + (
        limb_base() * wpow(t.len())) * x) by (nonlinear_arith);
        assert(limb_base() * wpow(t.len()) == wpow(s.len()));
    }
}

/// Appending a 64-bit limb adds its positional value (base `2^64`).
pub proof fn lemma_limbs_val_push(s: Seq<u64>, x: u64)
    ensures
        limbs_val(s.push(x)) == limbs_val(s) + wpow(2 * s.len()) * x,
    decreases s.len(),
{
    if s.len() == 0 {
        assert(s.push(x).subrange(1, 1) =~= Seq::<u64>::empty());
        assert(s.push(x)[0] == x);
        assert(limbs_val(s.push(x).subrange(1, 1)) == 0);
        assert(limbs_val(s.push(x)) == x as nat + 0x10000000000000000 * 0);
        assert(wpow(0) * x == x) by (nonlinear_arith);
    } else {
        let t = s.subrange(1, s.len() as int);
        assert(s.push(x).subrange(1, s.len() as int + 1) =~= t.push(x));
        lemma_limbs_val_push(t, x);
        assert(limbs_val(s.push(x)) == s[0] as nat + 0x10000000000000000 * (limbs_val(t) + wpow(
            2 * t.len(),
        ) * x));
        assert(0x10000000000000000 * (limbs_val(t) + wpow(2 * t.len()) * x)
            == 0x10000000000000000 * limbs_val(t) + (0x10000000000000000 * wpow(2 * t.len()))
            * x) by (nonlinear_arith);
        assert(0x10000000000000000 * wpow(2 * t.len()) == wpow(2 * s.len()))  by {
            assert(wpow(2 * s.len()) == limb_base() * wpow((2 * s.len() - 1) as nat));
            assert(wpow((2 * s.len() - 1) as nat) == limb_base() * wpow(2 * t.len()));
            assert(limb_base() * (limb_base() * wpow(2 * t.len())) == (limb_base() * limb_base())
                * wpow(2 * t.len())) by (nonlinear_arith);
        }
    }
}

/// Position weights multiply.
pub proof fn lemma_wpow_adds(m: nat, n: nat)
    ensures
        wpow(m + n) == wpow(m) * wpow(n),
    decreases m,
{
    if m == 0 {
        assert(wpow(0) * wpow(n) == wpow(n)) by (nonlinear_arith);
    } else {
        lemma_wpow_adds((m - 1) as nat, n);
        assert(wpow(m + n) == limb_base() * wpow((m + n - 1) as nat));
        assert(limb_base() * (wpow((m - 1) as nat) * wpow(n)) == (limb_base() * wpow(
            (m - 1) as nat,
        )) * wpow(n)) by (nonlinear_arith);
    }
}

/// Overwriting the limb at `k` shifts the encoded integer by the weighted
/// difference.
pub proof fn lemma_weighted_update(s: Seq<u128>, k: int, x: u128)
    requires
        0 <= k < s.len(),
    ensures
        weighted(s.update(k, x)) + wpow(k as nat) * (s[k] as nat) == weighted(s) + wpow(k as nat)
            * (x as nat),
    decreases k,
{
    let u = s.update(k, x);
    if k == 0 {
        assert(u.subrange(1, u.len() as int) =~= s.subrange(1, s.len() as int));
        assert(u[0] == x);
        assert(wpow(0) * (s[0] as nat) == s[0] as nat) by (nonlinear_arith);
        assert(wpow(0) * (x as nat) == x as nat) by (nonlinear_arith);
    } else {
        let st = s.subrange(1, s.len() as int);
        assert(u.subrange(1, u.len() as int) =~= st.update(k - 1, x));
        assert(u[0] == s[0]);
        lemma_weighted_update(st, k - 1, x);
        assert(st[k - 1] == s[k]);
        assert(limb_base() * (weighted(st.update(k - 1, x)) + wpow((k - 1) as nat) * (
        st[k - 1] as nat)) == limb_base() * weighted(st.update(k - 1, x)) + (limb_base() * wpow(
            (k - 1) as nat,
        )) * (st[k - 1] as nat)) by (nonlinear_arith);
        assert(limb_base() * (weighted(st) + wpow((k - 1) as nat) * (x as nat)) == limb_base()
            * weighted(st) + (limb_base() * wpow((k - 1) as nat)) * (x as nat))
            by (nonlinear_arith);
        assert(limb_base() * wpow((k - 1) as nat) == wpow(k as nat));
    }
}

/// Splits a canonical scalar-field representation into base-`2^32` limbs,
/// preserving the encoded integer.
fn decompose(c: &Vec<u64>) -> (r: Vec<u128>)
    ensures
        r@.len() == 2 * c@.len(),
        forall|i: int| 0 <= i < r@.len() ==> (#[trigger] r@[i]) < limb_base(),
        weighted(r@) == limbs_val(c@),
{
    let mut out: Vec<u128> = Vec::new();
    let mut i: usize = 0;
    proof {
        assert(c@.take(0) =~= Seq::<u64>::empty());
    }
    while i < c.len()
        invariant
            i <= c.len(),
            out@.len() == 2 * i,
            forall|j: int| 0 <= j < out@.len() ==> (#[trigger] out@[j]) < limb_base(),
            weighted(out@) == limbs_val(c@.take(i as int)),
        decreases c.len() - i,
    {
        let v = c[i];
        let lo: u64 = v & 0xFFFFFFFF;
        let hi: u64 = v >> 32;
        proof {
            assert(lo == (v & 0xFFFFFFFF) && hi == (v >> 32) ==> v == lo + 0x100000000 * hi && lo
                < 0x100000000 && hi < 0x100000000) by (bit_vector);
            let s0 = out@;
            lemma_weighted_push(s0, lo as u128);
            lemma_weighted_push(s0.push(lo as u128), hi as u128);
            lemma_limbs_val_push(c@.take(i as int), v);
            assert(c@.take(i + 1) =~= c@.take(i as int).push(v));
            assert(wpow((2 * i + 1) as nat) == limb_base() * wpow((2 * i) as nat));
            assert(wpow((2 * i) as nat) * lo + (limb_base() * wpow((2 * i) as nat)) * hi == wpow((2 * i) as nat) * (lo as nat
                + 0x100000000 * hi as nat)) by (nonlinear_arith);
        }
        out.push(lo as u128);
        out.push(hi as u128);
        i += 1;
    }
    proof {
        assert(c@.take(c@.len() as int) =~= c@);
    }
    out
}

/// Binds a vector of limb values (or eight placeholders) as fresh variables.
fn alloc_limbs(cs: &mut ConstraintSystem, role: Role, limbs: Option<Vec<u128>>, bound: u128, count: usize) -> (r:
    Result<EmulatedVar, CsError>)
    requires
        old(cs).wf(),
        !old(cs).finalized,
        old(cs).field == FieldId::BlsFq,
        0 < bound as nat <= capacity(),
        count >= 1,
        limbs matches Some(v) ==> v@.len() == count && forall|i: int|
            0 <= i < v@.len() ==> (#[trigger] v@[i]) < bound,
        role != Role::Constant,
    ensures
        final(cs).wf(),
        !final(cs).finalized,
        r matches Ok(g),
        r matches Ok(g) ==> {
            &&& g.tracks(*final(cs))
            &&& g.bound == bound
            &&& (g.limbs is Some <==> limbs is Some)
            &&& (limbs matches Some(v) ==> (g.limbs matches Some(w) && w@ == v@))
            &&& g.indices@.len() == count
            &&& extends(*old(cs), *final(cs))
            &&& final(cs).num_vars() == old(cs).num_vars() + count
            &&& final(cs).roles@ == roles_after(old(cs).roles@, role, count as nat)
            &&& final(cs).constraints@ == old(cs).constraints@
            &&& (old(cs).all_satisfied() ==> final(cs).all_satisfied())
            &&& (old(cs).fully_assigned() ==> final(cs).fully_assigned())
        },
{
    let ghost pre = *cs;
    let n: usize = count;
    let mut indices: Vec<usize> = Vec::new();
    let mut i: usize = 0;
    while i < n
        invariant
            cs.wf(),
            !cs.finalized,
            cs.field == FieldId::BlsFq,
            i <= n,
            n >= 1,
            indices@.len() == i,
            extends(pre, *cs),
            cs.roles@ == roles_after(pre.roles@, role, i as nat),
            cs.constraints@ == pre.constraints@,
            pre.all_satisfied() ==> cs.all_satisfied(),
            pre.fully_assigned() ==> cs.fully_assigned(),
            limbs matches Some(v) ==> v@.len() == n && forall|j: int|
                0 <= j < v@.len() ==> (#[trigger] v@[j]) < bound,
            role != Role::Constant,
            0 < bound as nat <= capacity(),
            forall|j: int|
                0 <= j < i ==> cs.roles[(#[trigger] indices@[j]) as int] != Role::Constant,
            forall|j: int| 0 <= j < i ==> (#[trigger] indices@[j]) < cs.num_vars(),
            forall|j: int|
                0 <= j < i ==> (limbs is Some <==> cs.values[#[trigger] indices@[j] as int]
                    is Some),
            forall|j: int|
                0 <= j < i ==> (limbs matches Some(v) ==> (
                cs.values[#[trigger] indices@[j] as int] matches Some(w) && limbs_val(w@)
                    == v@[j] as nat)),
        decreases n - i,
    {
        let ghost mid = *cs;
        let stored: Option<Vec<u64>>;
        match &limbs {
            Some(v) => {
                stored = Some(fe_from_u128(FieldId::BlsFq, v[i]));
            },
            None => {
                stored = None;
            },
        }
        proof {
            assert(role != Role::Constant || stored is Some);
        }
        let g = match alloc_felt(cs, role, stored) {
            Ok(g) => g,
            Err(_) => unreached(),
        };
        proof {
            lemma_extends_trans(pre, mid, *cs);
            assert forall|j: int| 0 <= j < indices@.len() implies cs.values[(#[trigger] indices@[j]) as int]
                == mid.values[indices@[j] as int] by {
                assert(mid.values@[indices@[j] as int] == cs.values@[indices@[j] as int]);
            }
        }
        indices.push(g.index);
        i += 1;
    }
    Ok(EmulatedVar { indices, limbs, bound })
}

/// Binds a scalar-field element (given canonically, or absent) as a fresh
/// reduced emulated witness.
pub fn new_witness_emulated(cs: &mut ConstraintSystem, value: Option<Vec<u64>>) -> (r: Result<
    EmulatedVar,
    CsError,
>)
    requires
        old(cs).wf(),
        !old(cs).finalized,
        old(cs).field == FieldId::BlsFq,
        value matches Some(v) ==> canonical(FieldId::BlsFr, v@),
    ensures
        final(cs).wf(),
        !final(cs).finalized,
        r matches Ok(g),
        r matches Ok(g) ==> {
            &&& g.tracks(*final(cs))
            &&& g.bound as nat == limb_base()
            &&& g.indices@.len() == 8
            &&& (g.has_value() <==> value is Some)
            &&& (value matches Some(v) ==> g.val() == limbs_val(v@))
            &&& extends(*old(cs), *final(cs))
            &&& final(cs).num_vars() == old(cs).num_vars() + 8
            &&& final(cs).roles@ == roles_after(old(cs).roles@, Role::Private, 8)
            &&& final(cs).constraints@ == old(cs).constraints@
            &&& (old(cs).all_satisfied() ==> final(cs).all_satisfied())
            &&& (old(cs).fully_assigned() ==> final(cs).fully_assigned())
        },
{
    let limbs: Option<Vec<u128>> = match &value {
        Some(v) => Some(decompose(v)),
        None => None,
    };
    proof {
        if value is Some {
            let v = value->Some_0;
            assert(limbs->Some_0@.len() == 2 * v@.len() >= 1);
            lemma_small_mod(weighted(limbs->Some_0@), fr_modulus());
        }
    }
    alloc_limbs(cs, Role::Private, limbs, 0x100000000u128, 8)
}

/// Canonicalizes an emulated element: computes the represented scalar-field
/// value with the native field's arithmetic and re-binds it as a reduced
/// representation.  The represented value is unchanged.
pub fn reduce_emulated(cs: &mut ConstraintSystem, a: &EmulatedVar) -> (r: Result<
    EmulatedVar,
    CsError,
>)
    requires
        old(cs).wf(),
        !old(cs).finalized,
        old(cs).field == FieldId::BlsFq,
        a.tracks(*old(cs)),
    ensures
        final(cs).wf(),
        !final(cs).finalized,
        r matches Ok(g),
        r matches Ok(g) ==> {
            &&& g.tracks(*final(cs))
            &&& g.bound as nat == limb_base()
            &&& g.indices@.len() == 8
            &&& (g.has_value() <==> a.has_value())
            &&& (a.has_value() ==> g.val() == a.val())
            &&& extends(*old(cs), *final(cs))
            &&& final(cs).num_vars() == old(cs).num_vars() + 8
            &&& final(cs).roles@ == roles_after(old(cs).roles@, Role::Private, 8)
            &&& final(cs).constraints@ == old(cs).constraints@
            &&& (old(cs).all_satisfied() ==> final(cs).all_satisfied())
            &&& (old(cs).fully_assigned() ==> final(cs).fully_assigned())
        },
{
    let canon: Option<Vec<u64>> = match &a.limbs {
        Some(v) => Some(horner_mod(v)),
        None => None,
    };
    let limbs: Option<Vec<u128>> = match &canon {
        Some(c) => Some(decompose(c)),
        None => None,
    };
    proof {
        if a.limbs is Some {
            let c = canon->Some_0;
            let l = limbs->Some_0;
            assert(l@.len() == 2 * c@.len() >= 1);
            lemma_small_mod(weighted(l@), fr_modulus());
            vstd::arithmetic::div_mod::lemma_mod_mod(
                weighted(a.limbs->Some_0@) as int,
                fr_modulus() as int,
                1,
            );
        }
    }
    alloc_limbs(cs, Role::Private, limbs, 0x100000000u128, 8)
}

/// The canonical scalar-field representation of the integer a limb vector
/// encodes, by Horner evaluation with the native field's arithmetic.
fn horner_mod(v: &Vec<u128>) -> (r: Vec<u64>)
    ensures
        canonical(FieldId::BlsFr, r@),
        limbs_val(r@) == weighted(v@) % fr_modulus(),
{
    let shift = crate::fields::fe_from_u64(FieldId::BlsFr, 0x100000000u64);
    let mut acc = crate::fields::fe_from_u64(FieldId::BlsFr, 0);
    let mut k: usize = v.len();
    proof {
        assert(v@.skip(v@.len() as int) =~= Seq::<u128>::empty());
        lemma_small_mod(0, fr_modulus());
    }
    while k > 0
        invariant
            k <= v@.len(),
            canonical(FieldId::BlsFr, shift@),
            limbs_val(shift@) == limb_base(),
            canonical(FieldId::BlsFr, acc@),
            limbs_val(acc@) == weighted(v@.skip(k as int)) % fr_modulus(),
        decreases k,
    {
        k -= 1;
        let limb_fe = fe_from_u128(FieldId::BlsFr, v[k]);
        let scaled = crate::fields::fe_mul(FieldId::BlsFr, &shift, &acc);
        let next = crate::fields::fe_add(FieldId::BlsFr, &limb_fe, &scaled);
        proof {
            let p = fr_modulus() as int;
            let w_rest = weighted(v@.skip(k + 1)) as int;
            let lk = v@[k as int] as nat as int;
            assert(v@.skip(k as int)[0] == v@[k as int]);
            assert(v@.skip(k as int).subrange(1, v@.skip(k as int).len() as int) =~= v@.skip(
                k + 1,
            ));
            assert(weighted(v@.skip(k as int)) == lk + limb_base() * w_rest);
            // scaled == (base * (w_rest % p)) % p == (base * w_rest) % p
            vstd::arithmetic::div_mod::lemma_mul_mod_noop_general(
                limb_base() as int,
                w_rest,
                p,
            );
            // next == (lk + (base * w_rest) % p) % p == (lk + base * w_rest) % p
            lemma_add_mod_noop(lk, limb_base() as int * w_rest, p);
            lemma_small_mod(lk as nat, fr_modulus());
        }
        acc = next;
    }
    proof {
        assert(v@.skip(0) =~= v@);
    }
    acc
}

/// Limb-wise sum of two emulated elements of one representation shape.  No
/// reduction happens: the bound grows to the sum of the operands' bounds,
/// and the operation fails with `CapacityExceeded` where that would pass the
/// declared capacity.  One linear constraint per limb binds the result.
pub fn add_emulated(cs: &mut ConstraintSystem, a: &EmulatedVar, b: &EmulatedVar) -> (r: Result<
    EmulatedVar,
    CsError,
>)
    requires
        old(cs).wf(),
        !old(cs).finalized,
        old(cs).field == FieldId::BlsFq,
        a.tracks(*old(cs)),
        b.tracks(*old(cs)),
        a.indices@.len() == b.indices@.len(),
    ensures
        final(cs).wf(),
        !final(cs).finalized,
        a.bound as nat + b.bound as nat > capacity() ==> r == Err::<EmulatedVar, CsError>(
            CsError::CapacityExceeded,
        ) && *final(cs) == *old(cs),
        a.bound as nat + b.bound as nat <= capacity() ==> {
            &&& r matches Ok(g)
            &&& (r matches Ok(g) ==> {
                &&& g.tracks(*final(cs))
                &&& g.indices@.len() == a.indices@.len()
                &&& g.bound as nat == a.bound as nat + b.bound as nat
                &&& (g.has_value() <==> a.has_value() && b.has_value())
                &&& (a.has_value() && b.has_value() ==> (g.limbs matches Some(v) && weighted(v@)
                    == weighted(a.limbs->Some_0@) + weighted(b.limbs->Some_0@)))
                &&& (a.has_value() && b.has_value() ==> g.val() == (a.val() + b.val())
                    % fr_modulus())
                &&& extends(*old(cs), *final(cs))
                &&& final(cs).num_vars() == old(cs).num_vars() + a.indices@.len()
                &&& final(cs).roles@ == roles_after(
                    old(cs).roles@,
                    Role::Private,
                    a.indices@.len(),
                )
                &&& (a.has_value() && b.has_value() ==> (old(cs).all_satisfied() ==> final(cs).all_satisfied()) && (old(cs).fully_assigned() ==> final(cs).fully_assigned()))
                &&& (!(a.has_value() && b.has_value()) ==> !final(cs).fully_assigned())
            })
        },
{
    if a.bound > 0x1000000000000000000000000000000u128 - b.bound {
        return Err(CsError::CapacityExceeded);
    }
    let nb: u128 = a.bound + b.bound;
    let ghost pre = *cs;
    let n = a.indices.len();
    let mut indices: Vec<usize> = Vec::new();
    let mut out: Vec<u128> = Vec::new();
    let valued = a.limbs.is_some() && b.limbs.is_some();
    let mut i: usize = 0;
    while i < n
        invariant
            cs.wf(),
            !cs.finalized,
            cs.field == FieldId::BlsFq,
            i <= n,
            n == a.indices@.len() && n == b.indices@.len(),
            a.tracks(pre),
            b.tracks(pre),
            extends(pre, *cs),
            pre == *old(cs),
            valued == (a.limbs is Some && b.limbs is Some),
            indices@.len() == i,
            cs.roles@ == roles_after(pre.roles@, Role::Private, i as nat),
            forall|j: int|
                0 <= j < i ==> cs.roles[(#[trigger] indices@[j]) as int] != Role::Constant,
            out@.len() == (if valued {
                i as int
            } else {
                0
            }),
            nb as nat == a.bound as nat + b.bound as nat <= capacity(),
            a.bound > 0 && b.bound > 0,
            forall|j: int| 0 <= j < i ==> (#[trigger] indices@[j]) < cs.num_vars(),
            forall|j: int|
                0 <= j < i ==> (valued <==> cs.values[#[trigger] indices@[j] as int] is Some),
            valued ==> forall|j: int|
                0 <= j < i ==> (#[trigger] out@[j]) as nat == a.limbs->Some_0@[j] as nat
                    + b.limbs->Some_0@[j] as nat,
            valued ==> forall|j: int| 0 <= j < i ==> (#[trigger] out@[j]) < nb,
            valued ==> forall|j: int|
                0 <= j < i ==> (cs.values[#[trigger] indices@[j] as int] matches Some(w)
                    && limbs_val(w@) == out@[j] as nat),
            valued ==> (pre.all_satisfied() ==> cs.all_satisfied()),
            valued ==> (pre.fully_assigned() ==> cs.fully_assigned()),
            !valued && i >= 1 ==> !cs.fully_assigned(),
        decreases n - i,
    {
        let ghost mid = *cs;
        let va_i: Option<Vec<u64>> = match &a.limbs {
            Some(va) => Some(fe_from_u128(FieldId::BlsFq, va[i])),
            None => None,
        };
        let vb_i: Option<Vec<u64>> = match &b.limbs {
            Some(vb) => Some(fe_from_u128(FieldId::BlsFq, vb[i])),
            None => None,
        };
        proof {
            lemma_em_tracks_extend(*a, pre, *cs);
            lemma_em_tracks_extend(*b, pre, *cs);
            if a.limbs is None {
                assert(cs.values[a.indices@[i as int] as int] is None);
            }
            if b.limbs is None {
                assert(cs.values[b.indices@[i as int] as int] is None);
            }
        }
        let fa = wrap_var(cs, a.indices[i], va_i);
        let fb = wrap_var(cs, b.indices[i], vb_i);
        let g = match add_felts(cs, &fa, &fb, String::new()) {
            Ok(g) => g,
            Err(_) => unreached(),
        };
        proof {
            lemma_extends_trans(pre, mid, *cs);
            assert forall|j: int| 0 <= j < indices@.len() implies cs.values[(#[trigger] indices@[j]) as int]
                == mid.values[indices@[j] as int] && cs.roles[(#[trigger] indices@[j]) as int]
                == mid.roles[indices@[j] as int] by {
                assert(mid.values@[indices@[j] as int] == cs.values@[indices@[j] as int]);
                assert(mid.roles@[indices@[j] as int] == cs.roles@[indices@[j] as int]);
            }
            assert(!crate::gadgets::felt::is_const(mid, fa));
            assert(!crate::gadgets::felt::is_const(mid, fb));
            assert(cs.roles@ == mid.roles@.push(Role::Private));
            assert(cs.roles@[g.index as int] == Role::Private);
            assert(cs.roles@ =~= roles_after(pre.roles@, Role::Private, (i + 1) as nat));
            if !valued {
                assert(!(fa.value is Some && fb.value is Some));
                assert(!cs.fully_assigned());
            }
            if valued {
                let s: nat = a.limbs->Some_0@[i as int] as nat + b.limbs->Some_0@[i as int] as nat;
                assert(g.val() == s % fq_modulus());
                lemma_small_mod(s, fq_modulus());
                assert(g.value matches Some(w) && limbs_val(w@) == s);
                let w = cs.values@[g.index as int]->Some_0;
                assert(canonical(cs.field, w@));
                lemma_small_mod(limbs_val(w@), fq_modulus());
                assert(cs.values[g.index as int] matches Some(ww) && limbs_val(ww@) == s);
            }
        }
        indices.push(g.index);
        if valued {
            let (xa, xb): (u128, u128) = match (&a.limbs, &b.limbs) {
                (Some(va), Some(vb)) => (va[i], vb[i]),
                _ => unreached(),
            };
            out.push(xa + xb);
        }
        i += 1;
    }
    let limbs: Option<Vec<u128>> = if valued {
        Some(out)
    } else {
        None
    };
    let g = EmulatedVar { indices, limbs, bound: nb };
    proof {
        if valued {
            let va = a.limbs->Some_0@;
            let vb = b.limbs->Some_0@;
            let vz = g.limbs->Some_0@;
            lemma_weighted_add(va, vb, vz);
            lemma_add_mod_noop(weighted(va) as int, weighted(vb) as int, fr_modulus() as int);
        } else {
            assert(cs.values[g.indices@[0] as int] is None);
        }
    }
    Ok(g)
}

/// Whether a full convolution of the two operands stays within the declared
/// limb capacity.
pub open spec fn mul_fits(a: EmulatedVar, b: EmulatedVar) -> bool {
    a.bound as nat * b.bound as nat * (a.indices@.len() * b.indices@.len()) <= capacity()
}

/// Unreduced product of two emulated elements: the limb convolution of the
/// operands.  The result's weighted value is exactly the product of the
/// operands' weighted values, but its limbs are not canonical until
/// `reduce_emulated` runs; chaining several multiplications defers that cost,
/// paid for by the growing bound.  Fails with `CapacityExceeded` where a
/// full convolution could pass the declared capacity.
pub fn mul_without_reduce(cs: &mut ConstraintSystem, a: &EmulatedVar, b: &EmulatedVar) -> (r:
    Result<EmulatedVar, CsError>)
    requires
        old(cs).wf(),
        !old(cs).finalized,
        old(cs).field == FieldId::BlsFq,
        a.tracks(*old(cs)),
        b.tracks(*old(cs)),
        a.indices@.len() + b.indices@.len() <= usize::MAX,
    ensures
        final(cs).wf(),
        !final(cs).finalized,
        !mul_fits(*a, *b) ==> r == Err::<EmulatedVar, CsError>(CsError::CapacityExceeded)
            && *final(cs) == *old(cs),
        mul_fits(*a, *b) ==> {
            &&& r matches Ok(g)
            &&& (r matches Ok(g) ==> {
                &&& g.tracks(*final(cs))
                &&& g.indices@.len() == a.indices@.len() + b.indices@.len() - 1
                &&& g.bound as nat == a.bound as nat * b.bound as nat * (a.indices@.len()
                    * b.indices@.len())
                &&& final(cs).num_vars() == old(cs).num_vars() + a.indices@.len()
                    + b.indices@.len() - 1
                &&& final(cs).roles@ == roles_after(
                    old(cs).roles@,
                    Role::Private,
                    (a.indices@.len() + b.indices@.len() - 1) as nat,
                )
                &&& (g.has_value() <==> a.has_value() && b.has_value())
                &&& (a.has_value() && b.has_value() ==> (g.limbs matches Some(v) && weighted(v@)
                    == weighted(a.limbs->Some_0@) * weighted(b.limbs->Some_0@)))
                &&& (a.has_value() && b.has_value() ==> g.val() == (a.val() * b.val())
                    % fr_modulus())
                &&& extends(*old(cs), *final(cs))
                &&& final(cs).constraints@ == old(cs).constraints@
                &&& (old(cs).all_satisfied() ==> final(cs).all_satisfied())
                &&& (old(cs).fully_assigned() ==> final(cs).fully_assigned())
            })
        },
{
    let la = a.indices.len();
    let lb = b.indices.len();
    let pm: u128 = match a.bound.checked_mul(b.bound) {
        Some(x) => x,
        None => {
            proof {
                assert(a.bound as nat * b.bound as nat * (a.indices@.len() * b.indices@.len())
                    > capacity()) by (nonlinear_arith)
                    requires
                        a.bound as nat * b.bound as nat > u128::MAX as nat,
                        a.indices@.len() >= 1 && b.indices@.len() >= 1,
                        u128::MAX as nat >= capacity(),
                ;
            }
            return Err(CsError::CapacityExceeded);
        },
    };
    proof {
        assert((la as nat) * (lb as nat) <= u128::MAX) by (nonlinear_arith)
            requires
                (la as nat) < 0x10000000000000000,
                (lb as nat) < 0x10000000000000000,
        ;
    }
    let cnt: u128 = (la as u128) * (lb as u128);
    let total: u128 = match pm.checked_mul(cnt) {
        Some(x) => x,
        None => {
            proof {
                assert(a.bound as nat * b.bound as nat * (a.indices@.len() * b.indices@.len())
                    > capacity()) by (nonlinear_arith)
                    requires
                        pm as nat == a.bound as nat * b.bound as nat,
                        cnt as nat == a.indices@.len() * b.indices@.len(),
                        pm as nat * cnt as nat > u128::MAX as nat,
                        u128::MAX as nat >= capacity(),
                ;
            }
            return Err(CsError::CapacityExceeded);
        },
    };
    if total > 0x1000000000000000000000000000000u128 {
        proof {
            assert(a.bound as nat * b.bound as nat * (a.indices@.len() * b.indices@.len())
                == total as nat) by (nonlinear_arith)
                requires
                    pm as nat == a.bound as nat * b.bound as nat,
                    cnt as nat == a.indices@.len() * b.indices@.len(),
                    total as nat == pm as nat * cnt as nat,
            ;
        }
        return Err(CsError::CapacityExceeded);
    }
    proof {
        assert(a.bound as nat * b.bound as nat * (a.indices@.len() * b.indices@.len())
            == total as nat) by (nonlinear_arith)
            requires
                pm as nat == a.bound as nat * b.bound as nat,
                cnt as nat == a.indices@.len() * b.indices@.len(),
                total as nat == pm as nat * cnt as nat,
        ;
        assert(total >= 1) by (nonlinear_arith)
            requires
                pm as nat == a.bound as nat * b.bound as nat,
                cnt as nat == a.indices@.len() * b.indices@.len(),
                total as nat == pm as nat * cnt as nat,
                a.bound >= 1 && b.bound >= 1,
                a.indices@.len() >= 1 && b.indices@.len() >= 1,
        ;
    }
    let n: usize = la + lb - 1;
    let limbs: Option<Vec<u128>> = match (&a.limbs, &b.limbs) {
        (Some(va), Some(vb)) => Some(convolve(va, vb, a.bound, b.bound, pm, total)),
        _ => None,
    };
    proof {
        if a.limbs is Some && b.limbs is Some {
            let v = limbs->Some_0;
            assert(v@.len() == la + lb - 1);
        }
    }
    let g = match alloc_limbs(cs, Role::Private, limbs, total, n) {
        Ok(g) => g,
        Err(_) => unreached(),
    };
    proof {
        if a.limbs is Some && b.limbs is Some {
            vstd::arithmetic::div_mod::lemma_mul_mod_noop_general(
                weighted(a.limbs->Some_0@) as int,
                weighted(b.limbs->Some_0@) as int,
                fr_modulus() as int,
            );
        }
    }
    Ok(g)
}

/// The limb convolution of two bounded limb vectors; the weighted value of
/// the result is the product of the operands' weighted values.
fn convolve(va: &Vec<u128>, vb: &Vec<u128>, abound: u128, bbound: u128, pm: u128, total: u128) -> (r:
    Vec<u128>)
    requires
        va@.len() >= 1,
        vb@.len() >= 1,
        va@.len() + vb@.len() <= usize::MAX,
        forall|i: int| 0 <= i < va@.len() ==> (#[trigger] va@[i]) < abound,
        forall|i: int| 0 <= i < vb@.len() ==> (#[trigger] vb@[i]) < bbound,
        abound >= 1 && bbound >= 1,
        pm as nat == abound as nat * bbound as nat,
        total as nat == pm as nat * (va@.len() * vb@.len()),
        total as nat <= capacity(),
    ensures
        r@.len() == va@.len() + vb@.len() - 1,
        forall|i: int| 0 <= i < r@.len() ==> (#[trigger] r@[i]) < total,
        weighted(r@) == weighted(va@) * weighted(vb@),
{
    let la = va.len();
    let lb = vb.len();
    let n: usize = la + lb - 1;
    let ghost pmm: nat = (pm - 1) as nat;
    proof {
        assert(pm >= 1) by (nonlinear_arith)
            requires
                pm as nat == abound as nat * bbound as nat,
                abound >= 1 && bbound >= 1,
        ;
    }
    let mut acc: Vec<u128> = Vec::new();
    while acc.len() < n
        invariant
            acc@.len() <= n,
            weighted(acc@) == 0,
            forall|k: int| 0 <= k < acc@.len() ==> (#[trigger] acc@[k]) == 0,
        decreases n - acc.len(),
    {
        proof {
            lemma_weighted_push(acc@, 0);
        }
        acc.push(0);
    }
    let mut i: usize = 0;
    proof {
        assert(va@.take(0) =~= Seq::<u128>::empty());
        assert(weighted(va@.take(0)) * weighted(vb@) == 0) by (nonlinear_arith);
        assert(forall|k: int| 0 <= k < acc@.len() ==> (#[trigger] acc@[k]) as nat <= 0 * pmm);
    }
    while i < la
        invariant
            i <= la,
            la == va@.len() && lb == vb@.len(),
            n == la + lb - 1,
            la + lb <= usize::MAX,
            acc@.len() == n,
            forall|k: int| 0 <= k < va@.len() ==> (#[trigger] va@[k]) < abound,
            forall|k: int| 0 <= k < vb@.len() ==> (#[trigger] vb@[k]) < bbound,
            abound >= 1 && bbound >= 1,
            pm as nat == abound as nat * bbound as nat,
            pmm == (pm - 1) as nat,
            pm >= 1,
            total as nat == pm as nat * (va@.len() * vb@.len()),
            total as nat <= capacity(),
            weighted(acc@) == weighted(va@.take(i as int)) * weighted(vb@),
            forall|k: int| 0 <= k < acc@.len() ==> (#[trigger] acc@[k]) as nat <= (i * lb) * pmm,
        decreases la - i,
    {
        let mut j: usize = 0;
        proof {
            assert(vb@.take(0) =~= Seq::<u128>::empty());
            assert((va@[i as int] as nat) * weighted(vb@.take(0)) * wpow(i as nat) == 0)
                by (nonlinear_arith);
        }
        while j < lb
            invariant
                i < la,
                j <= lb,
                la == va@.len() && lb == vb@.len(),
                n == la + lb - 1,
                la + lb <= usize::MAX,
                acc@.len() == n,
                forall|k: int| 0 <= k < va@.len() ==> (#[trigger] va@[k]) < abound,
                forall|k: int| 0 <= k < vb@.len() ==> (#[trigger] vb@[k]) < bbound,
                abound >= 1 && bbound >= 1,
                pm as nat == abound as nat * bbound as nat,
                pmm == (pm - 1) as nat,
                pm >= 1,
                total as nat == pm as nat * (va@.len() * vb@.len()),
                total as nat <= capacity(),
                weighted(acc@) == weighted(va@.take(i as int)) * weighted(vb@) + (
                va@[i as int] as nat) * weighted(vb@.take(j as int)) * wpow(i as nat),
                forall|k: int|
                    0 <= k < acc@.len() ==> (#[trigger] acc@[k]) as nat <= (i * lb + j) * pmm,
            decreases lb - j,
        {
            let xa = va[i];
            let xb = vb[j];
            proof {
                assert((xa as nat) * (xb as nat) <= pmm) by (nonlinear_arith)
                    requires
                        xa < abound,
                        xb < bbound,
                        abound >= 1 && bbound >= 1,
                        pm as nat == abound as nat * bbound as nat,
                        pmm == (pm - 1) as nat,
                        pm >= 1,
                ;
                assert((i * lb + j) * pmm + pmm <= (va@.len() * vb@.len()) * pmm)
                    by (nonlinear_arith)
                    requires
                        0 <= i < va@.len(),
                        0 <= j < vb@.len(),
                        la == va@.len() && lb == vb@.len(),
                ;
                assert((va@.len() * vb@.len()) * pmm < total as nat) by (nonlinear_arith)
                    requires
                        total as nat == pm as nat * (va@.len() * vb@.len()),
                        pmm == (pm - 1) as nat,
                        pm >= 1,
                        va@.len() >= 1 && vb@.len() >= 1,
                ;
            }
            let prod: u128 = xa * xb;
            let k: usize = i + j;
            let prev: u128 = acc[k];
            let ghost acc0 = acc@;
            acc.set(k, prev + prod);
            proof {
                lemma_weighted_update(acc0, k as int, (prev + prod) as u128);
                lemma_wpow_adds(i as nat, j as nat);
                assert(vb@.take(j + 1) =~= vb@.take(j as int).push(vb@[j as int]));
                lemma_weighted_push(vb@.take(j as int), vb@[j as int]);
                assert(wpow(k as nat) * ((prev + prod) as nat) == wpow(k as nat) * (prev as nat)
                    + wpow(k as nat) * (prod as nat)) by (nonlinear_arith)
                    requires
                        (prev + prod) as nat == prev as nat + prod as nat,
                ;
                assert(weighted(acc@) == weighted(acc0) + wpow(k as nat) * (prod as nat));
                assert(wpow(k as nat) * (prod as nat) == (va@[i as int] as nat) * (wpow(
                    j as nat,
                ) * (vb@[j as int] as nat)) * wpow(i as nat)) by (nonlinear_arith)
                    requires
                        prod as nat == (va@[i as int] as nat) * (vb@[j as int] as nat),
                        wpow(k as nat) == wpow(i as nat) * wpow(j as nat),
                ;
                assert((va@[i as int] as nat) * weighted(vb@.take(j + 1)) * wpow(i as nat) == (
                va@[i as int] as nat) * weighted(vb@.take(j as int)) * wpow(i as nat) + (
                va@[i as int] as nat) * (wpow(j as nat) * (vb@[j as int] as nat)) * wpow(
                    i as nat,
                )) by (nonlinear_arith)
                    requires
                        weighted(vb@.take(j + 1)) == weighted(vb@.take(j as int)) + wpow(j as nat)
                            * (vb@[j as int] as nat),
                ;
                assert forall|k2: int| 0 <= k2 < acc@.len() implies (#[trigger] acc@[k2]) as nat
                    <= (i * lb + j + 1) * pmm by {
                    assert((i * lb + j) * pmm + pmm == (i * lb + j + 1) * pmm)
                        by (nonlinear_arith);
                    if k2 != k as int {
                        assert(acc@[k2] == acc0[k2]);
                    }
                }
            }
            j += 1;
        }
        proof {
            assert(vb@.take(lb as int) =~= vb@);
            assert(va@.take(i + 1) =~= va@.take(i as int).push(va@[i as int]));
            lemma_weighted_push(va@.take(i as int), va@[i as int]);
            assert(weighted(va@.take(i as int)) * weighted(vb@) + (va@[i as int] as nat)
                * weighted(vb@) * wpow(i as nat) == weighted(va@.take(i + 1)) * weighted(vb@))
                by (nonlinear_arith)
                requires
                    weighted(va@.take(i + 1)) == weighted(va@.take(i as int)) + wpow(i as nat) * (
                    va@[i as int] as nat),
            ;
            assert((i * lb + lb) * pmm == ((i + 1) * lb) * pmm) by (nonlinear_arith);
        }
        i += 1;
    }
    proof {
        assert(va@.take(la as int) =~= va@);
        assert forall|k: int| 0 <= k < acc@.len() implies (#[trigger] acc@[k]) < total by {
            assert((la * lb) * pmm < total as nat) by (nonlinear_arith)
                requires
                    total as nat == pm as nat * (va@.len() * vb@.len()),
                    pmm == (pm - 1) as nat,
                    pm >= 1,
                    va@.len() >= 1 && vb@.len() >= 1,
                    la == va@.len() && lb == vb@.len(),
            ;
        }
    }
    acc
}

/// Emulation round trip: an unreduced product followed by an explicit
/// reduction represents exactly the scalar-field product of the operands,
/// and a limb-wise sum represents their scalar-field sum.
pub proof fn lemma_emulation_round_trip(
    a: EmulatedVar,
    b: EmulatedVar,
    m: EmulatedVar,
    r: EmulatedVar,
    s: EmulatedVar,
)
    requires
        a.has_value() && b.has_value() && m.has_value() && r.has_value() && s.has_value(),
        m.limbs matches Some(v) && weighted(v@) == weighted(a.limbs->Some_0@) * weighted(
            b.limbs->Some_0@,
        ),
        r.val() == m.val(),
        s.limbs matches Some(v) && weighted(v@) == weighted(a.limbs->Some_0@) + weighted(
            b.limbs->Some_0@,
        ),
    ensures
        r.val() == (a.val() * b.val()) % fr_modulus(),
        s.val() == (a.val() + b.val()) % fr_modulus(),
{
    vstd::arithmetic::div_mod::lemma_mul_mod_noop_general(
        weighted(a.limbs->Some_0@) as int,
        weighted(b.limbs->Some_0@) as int,
        fr_modulus() as int,
    );
    lemma_add_mod_noop(
        weighted(a.limbs->Some_0@) as int,
        weighted(b.limbs->Some_0@) as int,
        fr_modulus() as int,
    );
}

} // verus!
