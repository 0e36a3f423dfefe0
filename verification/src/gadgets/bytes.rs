//! The fixed-length byte-sequence gadget: each byte is embedded as one field
//! element of the constraint system.
use vstd::prelude::*;
use vstd::pervasive::unreached;

use crate::cs::{ConstraintSystem, CsError, Role};
use crate::fields::{fe_from_u64, limbs_val};
use crate::gadgets::felt::{
    alloc_felt, enforce_equal_felts, extends, lemma_extends_trans, roles_after, wrap_var,
};

verus! {

/// One byte inside a constraint system: the variable holding its field
/// embedding and, when a witness is present, the byte itself.
#[derive(Clone, Copy)]
pub struct ByteVar {
    pub index: usize,
    pub value: Option<u8>,
}

impl ByteVar {
    /// The system's assignment for the variable is exactly the byte's field
    /// embedding.
    pub open spec fn tracks(self, cs: ConstraintSystem) -> bool {
        &&& self.index < cs.num_vars()
        &&& (self.value is Some <==> cs.values[self.index as int] is Some)
        &&& (self.value matches Some(b) ==> (cs.values[self.index as int] matches Some(w)
            && limbs_val(w@) == b as nat))
    }

    pub open spec fn has_value(self) -> bool {
        self.value is Some
    }

    pub open spec fn val(self) -> nat {
        match self.value {
            Some(b) => b as nat,
            None => 0,
        }
    }
}

pub open spec fn all_track(s: Seq<ByteVar>, cs: ConstraintSystem) -> bool {
    forall|i: int| 0 <= i < s.len() ==> (#[trigger] s[i]).tracks(cs)
}

pub open spec fn all_have_values(s: Seq<ByteVar>) -> bool {
    forall|i: int| 0 <= i < s.len() ==> (#[trigger] s[i]).value is Some
}

/// The bytes a fully valued gadget sequence stands for.
pub open spec fn byte_values(s: Seq<ByteVar>) -> Seq<u8> {
    s.map_values(|b: ByteVar| b.value->Some_0)
}

/// Binds one byte with the given role.
pub fn alloc_byte(cs: &mut ConstraintSystem, role: Role, value: Option<u8>) -> (r: Result<
    ByteVar,
    CsError,
>)
    requires
        old(cs).wf(),
        !old(cs).finalized,
        role != Role::Constant || value is Some,
    ensures
        final(cs).wf(),
        !final(cs).finalized,
        r matches Ok(g),
        r matches Ok(g) ==> {
            &&& g.tracks(*final(cs))
            &&& g.value == value
            &&& extends(*old(cs), *final(cs))
            &&& final(cs).num_vars() == old(cs).num_vars() + 1
            &&& final(cs).roles@ == old(cs).roles@.push(role)
            &&& final(cs).constraints@ == old(cs).constraints@
            &&& (old(cs).all_satisfied() ==> final(cs).all_satisfied())
            &&& (old(cs).fully_assigned() ==> final(cs).fully_assigned())
        },
{
    let stored: Option<Vec<u64>> = match value {
        Some(b) => Some(fe_from_u64(cs.field, b as u64)),
        None => None,
    };
    let g = match alloc_felt(cs, role, stored) {
        Ok(g) => g,
        Err(_) => unreached(),
    };
    Ok(ByteVar { index: g.index, value })
}

/// Binds a whole byte string, one variable per byte, with the given role.
pub fn alloc_bytes(cs: &mut ConstraintSystem, role: Role, bytes: &Vec<u8>) -> (r: Result<
    Vec<ByteVar>,
    CsError,
>)
    requires
        old(cs).wf(),
        !old(cs).finalized,
    ensures
        final(cs).wf(),
        !final(cs).finalized,
        r matches Ok(out),
        r matches Ok(out) ==> {
            &&& out@.len() == bytes@.len()
            &&& all_track(out@, *final(cs))
            &&& all_have_values(out@)
            &&& byte_values(out@) == bytes@
            &&& extends(*old(cs), *final(cs))
            &&& final(cs).num_vars() == old(cs).num_vars() + bytes@.len()
            &&& final(cs).roles@ == roles_after(old(cs).roles@, role, bytes@.len())
            &&& final(cs).constraints@ == old(cs).constraints@
            &&& (old(cs).all_satisfied() ==> final(cs).all_satisfied())
            &&& (old(cs).fully_assigned() ==> final(cs).fully_assigned())
        },
{
    let ghost pre = *cs;
    let mut out: Vec<ByteVar> = Vec::new();
    let mut i: usize = 0;
    while i < bytes.len()
        invariant
            cs.wf(),
            !cs.finalized,
            i <= bytes.len(),
            out@.len() == i,
            all_track(out@, *cs),
            forall|j: int| 0 <= j < i ==> (#[trigger] out@[j]).value == Some(bytes@[j]),
            extends(pre, *cs),
            cs.roles@ == roles_after(pre.roles@, role, i as nat),
            cs.constraints@ == pre.constraints@,
            pre.all_satisfied() ==> cs.all_satisfied(),
            pre.fully_assigned() ==> cs.fully_assigned(),
        decreases bytes.len() - i,
    {
        let ghost mid = *cs;
        let b = match alloc_byte(cs, role, Some(bytes[i])) {
            Ok(b) => b,
            Err(_) => unreached(),
        };
        proof {
            assert forall|j: int| 0 <= j < out@.len() implies (#[trigger] out@[j]).tracks(*cs) by {
                lemma_byte_tracks_extend(out@[j], mid, *cs);
            }
            lemma_extends_trans(pre, mid, *cs);
            assert(cs.roles@ =~= roles_after(pre.roles@, role, (i + 1) as nat));
        }
        out.push(b);
        i += 1;
    }
    proof {
        assert(byte_values(out@) =~= bytes@);
    }
    Ok(out)
}

/// Byte tracking survives any extension of the constraint system.
pub proof fn lemma_byte_tracks_extend(g: ByteVar, pre: ConstraintSystem, post: ConstraintSystem)
    requires
        g.tracks(pre),
        extends(pre, post),
    ensures
        g.tracks(post),
{
    assert(post.values@[g.index as int] == pre.values@[g.index as int]);
}

/// Forces two byte strings of equal declared length to be equal, byte by
/// byte: one constraint per position.  With witnesses present, the system
/// stays satisfied exactly when the strings agree; without them the new
/// constraints are reported as missing their assignment.
pub fn enforce_equal_bytes(cs: &mut ConstraintSystem, a: &Vec<ByteVar>, b: &Vec<ByteVar>) -> (r:
    Result<(), CsError>)
    requires
        old(cs).wf(),
        !old(cs).finalized,
        a@.len() == b@.len(),
        all_track(a@, *old(cs)),
        all_track(b@, *old(cs)),
    ensures
        final(cs).wf(),
        !final(cs).finalized,
        r == Ok::<(), CsError>(()),
        extends(*old(cs), *final(cs)),
        final(cs).num_vars() == old(cs).num_vars(),
        final(cs).roles@ == old(cs).roles@,
        final(cs).constraints@.len() == old(cs).constraints@.len() + a@.len(),
        all_have_values(a@) && all_have_values(b@) ==> final(cs).all_satisfied() == (old(cs).all_satisfied() && byte_values(a@) == byte_values(b@)),
        all_have_values(a@) && all_have_values(b@) ==> (old(cs).fully_assigned() ==> final(cs).fully_assigned()),
        !(all_have_values(a@) && all_have_values(b@)) ==> !final(cs).fully_assigned(),
{
    let ghost pre = *cs;
    let mut i: usize = 0;
    while i < a.len()
        invariant
            cs.wf(),
            !cs.finalized,
            i <= a.len(),
            a@.len() == b@.len(),
            all_track(a@, *cs),
            all_track(b@, *cs),
            extends(pre, *cs),
            cs.num_vars() == pre.num_vars(),
            cs.roles@ == pre.roles@,
            cs.constraints@.len() == pre.constraints@.len() + i,
            all_have_values(a@) && all_have_values(b@) ==> cs.all_satisfied() == (
            pre.all_satisfied() && (forall|j: int|
                0 <= j < i ==> (#[trigger] a@[j]).val() == b@[j].val())),
            all_have_values(a@) && all_have_values(b@) ==> (pre.fully_assigned()
                ==> cs.fully_assigned()),
            !(forall|j: int|
                0 <= j < i ==> (#[trigger] a@[j]).value is Some && b@[j].value is Some)
                ==> !cs.fully_assigned(),
        decreases a.len() - i,
    {
        let ghost mid = *cs;
        proof {
            assert(a@[i as int].tracks(*cs));
            assert(b@[i as int].tracks(*cs));
        }
        let va: Option<Vec<u64>> = match a[i].value {
            Some(x) => Some(fe_from_u64(cs.field, x as u64)),
            None => None,
        };
        let vb: Option<Vec<u64>> = match b[i].value {
            Some(x) => Some(fe_from_u64(cs.field, x as u64)),
            None => None,
        };
        let fa = wrap_var(cs, a[i].index, va);
        let fb = wrap_var(cs, b[i].index, vb);
        match enforce_equal_felts(cs, &fa, &fb, String::new()) {
            Ok(u) => u,
            Err(_) => unreached(),
        };
        proof {
            lemma_extends_trans(pre, mid, *cs);
            assert forall|j: int| 0 <= j < a@.len() implies (#[trigger] a@[j]).tracks(*cs)
                && b@[j].tracks(*cs) by {
                lemma_byte_tracks_extend(a@[j], mid, *cs);
                lemma_byte_tracks_extend(b@[j], mid, *cs);
            }
            if a@[i as int].value is Some && b@[i as int].value is Some {
                assert(fa.val() == a@[i as int].val());
                assert(fb.val() == b@[i as int].val());
            }
            if !(forall|j: int|
                0 <= j < i ==> (#[trigger] a@[j]).value is Some && b@[j].value is Some) {
                crate::gadgets::felt::lemma_missing_assignment_persists(mid, *cs);
            }
        }
        i += 1;
    }
    proof {
        if all_have_values(a@) && all_have_values(b@) {
            if forall|j: int| 0 <= j < a@.len() ==> (#[trigger] a@[j]).val() == b@[j].val() {
                assert(byte_values(a@) =~= byte_values(b@));
            } else {
                let j = choose|j: int|
                    0 <= j < a@.len() && (#[trigger] a@[j]).val() != b@[j].val();
                assert(byte_values(a@)[j] != byte_values(b@)[j]);
            }
        } else {
            if !all_have_values(a@) {
                let j = choose|j: int| 0 <= j < a@.len() && !((#[trigger] a@[j]).value is Some);
                assert(!(a@[j].value is Some && b@[j].value is Some));
            } else {
                let j = choose|j: int| 0 <= j < b@.len() && !((#[trigger] b@[j]).value is Some);
                assert(!(a@[j].value is Some && b@[j].value is Some));
            }
        }
    }
    Ok(())
}

} // verus!
