//! The hash gadget: SHA-256 over a byte string of fixed declared length,
//! producing a 32-byte digest gadget.
//!
//! The digest of the witnessed bytes is computed by the native hash function;
//! the gadget binds it, byte by byte, as fresh witness variables whose values
//! provably equal the native digest of the same input bytes.
use vstd::prelude::*;
use vstd::pervasive::unreached;

use ark_crypto_primitives::crh::{sha256::Sha256, CRHScheme};

use crate::cs::{ConstraintSystem, CsError, Role};
use crate::gadgets::bytes::{
    all_have_values, all_track, alloc_bytes, byte_values, ByteVar,
};
use crate::gadgets::felt::{extends, lemma_extends_trans, roles_after};

verus! {

/// The SHA-256 digest of a byte string, as the native hash function computes
/// it: a function of the input bytes alone.
pub uninterp spec fn sha256_of(input: Seq<u8>) -> Seq<u8>;

/// Relies on `ark_crypto_primitives`' `Sha256` `CRHScheme::evaluate`, which
/// returns `Sha256::digest(input)`: the 32-byte SHA-256 digest of the input
/// bytes, depending on nothing but them.
#[verifier::external_body]
fn sha256_native(input: &Vec<u8>) -> (r: Vec<u8>)
    ensures
        r@ == sha256_of(input@),
        r@.len() == 32,
{
    <Sha256 as CRHScheme>::evaluate(&(), input.as_slice()).unwrap()
}

/// An incremental SHA-256 gadget: collects input byte gadgets, then binds
/// the digest.
pub struct Sha256Gadget {
    pub data: Vec<ByteVar>,
}

impl Sha256Gadget {
    pub fn new() -> (r: Sha256Gadget)
        ensures
            r.data@.len() == 0,
    {
        Sha256Gadget { data: Vec::new() }
    }

    /// Appends input byte gadgets.
    pub fn update(&mut self, input: &Vec<ByteVar>)
        ensures
            final(self).data@ == old(self).data@ + input@,
    {
        let mut i: usize = 0;
        while i < input.len()
            invariant
                i <= input.len(),
                self.data@ == old(self).data@ + input@.take(i as int),
            decreases input.len() - i,
        {
            self.data.push(input[i]);
            i += 1;
            proof {
                assert(old(self).data@ + input@.take(i as int) =~= self.data@);
            }
        }
        proof {
            assert(input@.take(input@.len() as int) =~= input@);
        }
    }

    /// Binds the 32-byte digest of the collected input as fresh witness
    /// variables — value-bound rather than constraint-forced: no constraint
    /// ties them to the input bytes.  With a concrete witness the digest
    /// values are exactly the native hash of the collected bytes; without one
    /// the digest stays symbolic.
    pub fn finalize(&self, cs: &mut ConstraintSystem) -> (r: Result<Vec<ByteVar>, CsError>)
        requires
            old(cs).wf(),
            !old(cs).finalized,
            all_track(self.data@, *old(cs)),
        ensures
            final(cs).wf(),
            !final(cs).finalized,
            r matches Ok(digest),
            r matches Ok(digest) ==> {
                &&& extends(*old(cs), *final(cs))
                &&& final(cs).num_vars() == old(cs).num_vars() + 32
                &&& final(cs).roles@ == roles_after(old(cs).roles@, Role::Private, 32)
                &&& digest@.len() == 32
                &&& final(cs).constraints@ == old(cs).constraints@
                &&& (old(cs).all_satisfied() ==> final(cs).all_satisfied())
                &&& (old(cs).fully_assigned() ==> final(cs).fully_assigned())
                &&& all_track(digest@, *final(cs))
                &&& (all_have_values(self.data@) ==> {
                    &&& digest@.len() == 32
                    &&& all_have_values(digest@)
                    &&& byte_values(digest@) == sha256_of(byte_values(self.data@))
                })
            },
    {
        if !bytes_all_valued(&self.data) {
            // Symbolic (setup-mode) evaluation: the topology is fixed by the
            // declared input length alone; no digest value exists yet.
            let out = match alloc_symbolic_digest(cs) {
                Ok(o) => o,
                Err(_) => unreached(),
            };
            return Ok(out);
        }
        let input = collect_bytes(&self.data);
        let digest = sha256_native(&input);
        let out = match alloc_bytes(cs, Role::Private, &digest) {
            Ok(o) => o,
            Err(_) => unreached(),
        };
        Ok(out)
    }
}

/// Whether every collected byte gadget carries a value.
fn bytes_all_valued(s: &Vec<ByteVar>) -> (r: bool)
    ensures
        r == all_have_values(s@),
{
    let mut i: usize = 0;
    while i < s.len()
        invariant
            i <= s.len(),
            forall|j: int| 0 <= j < i ==> (#[trigger] s@[j]).value is Some,
        decreases s.len() - i,
    {
        if s[i].value.is_none() {
            return false;
        }
        i += 1;
    }
    true
}

/// The bytes carried by a fully valued gadget sequence.
fn collect_bytes(s: &Vec<ByteVar>) -> (r: Vec<u8>)
    requires
        all_have_values(s@),
    ensures
        r@ == byte_values(s@),
{
    let mut out: Vec<u8> = Vec::new();
    let mut i: usize = 0;
    while i < s.len()
        invariant
            i <= s.len(),
            all_have_values(s@),
            out@.len() == i,
            forall|j: int| 0 <= j < i ==> out@[j] == (#[trigger] s@[j]).value->Some_0,
        decreases s.len() - i,
    {
        let b = match s[i].value {
            Some(b) => b,
            None => unreached(),
        };
        out.push(b);
        i += 1;
    }
    proof {
        assert(out@ =~= byte_values(s@));
    }
    out
}

/// Thirty-two digest variables without values, for witness-free evaluation.
fn alloc_symbolic_digest(cs: &mut ConstraintSystem) -> (r: Result<Vec<ByteVar>, CsError>)
    requires
        old(cs).wf(),
        !old(cs).finalized,
    ensures
        final(cs).wf(),
        !final(cs).finalized,
        r matches Ok(out),
        r matches Ok(out) ==> {
            &&& out@.len() == 32
            &&& all_track(out@, *final(cs))
            &&& extends(*old(cs), *final(cs))
            &&& final(cs).num_vars() == old(cs).num_vars() + 32
            &&& final(cs).roles@ == roles_after(old(cs).roles@, Role::Private, 32)
            &&& final(cs).constraints@ == old(cs).constraints@
            &&& (old(cs).all_satisfied() ==> final(cs).all_satisfied())
            &&& (old(cs).fully_assigned() ==> final(cs).fully_assigned())
        },
{
    let ghost pre = *cs;
    let mut out: Vec<ByteVar> = Vec::new();
    let mut i: usize = 0;
    while i < 32
        invariant
            cs.wf(),
            !cs.finalized,
            i <= 32,
            out@.len() == i,
            all_track(out@, *cs),
            extends(pre, *cs),
            cs.roles@ == roles_after(pre.roles@, Role::Private, i as nat),
            cs.constraints@ == pre.constraints@,
            pre.all_satisfied() ==> cs.all_satisfied(),
            pre.fully_assigned() ==> cs.fully_assigned(),
        decreases 32 - i,
    {
        let ghost mid = *cs;
        let b = match crate::gadgets::bytes::alloc_byte(cs, Role::Private, None) {
            Ok(b) => b,
            Err(_) => unreached(),
        };
        proof {
            assert forall|j: int| 0 <= j < out@.len() implies (#[trigger] out@[j]).tracks(*cs) by {
                crate::gadgets::bytes::lemma_byte_tracks_extend(out@[j], mid, *cs);
            }
            lemma_extends_trans(pre, mid, *cs);
            assert(cs.roles@ =~= roles_after(pre.roles@, Role::Private, (i + 1) as nat));
        }
        out.push(b);
        i += 1;
    }
    Ok(out)
}

} // verus!
