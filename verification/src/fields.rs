//! The two native prime fields a constraint system can be built over, and
//! their arithmetic.
//!
//! A field element is carried as a vector of little-endian 64-bit limbs whose
//! value is below the field's modulus (its canonical representation).  The
//! arithmetic itself is performed by `ark-bls12-377`, behind trusted wrappers
//! whose contracts state the exact modular result.
use vstd::prelude::*;

use ark_bls12_377::{Fq, Fr};
use ark_ff::{BigInt, PrimeField};

verus! {

/// The prime field a constraint system natively computes in.
///
/// `BlsFr` is the scalar field of BLS12-377 (a 253-bit prime); `BlsFq` is its
/// base field (a 377-bit prime), which is also the scalar field of BW6-761.
#[derive(Clone, Copy, Debug, PartialEq, Eq, Structural)]
pub enum FieldId {
    BlsFr,
    BlsFq,
}

/// Modulus of the BLS12-377 scalar field.
pub open spec fn fr_modulus() -> nat {
    8444461749428370424248824938781546531375899335154063827935233455917409239041nat
}

/// Modulus of the BLS12-377 base field (= the BW6-761 scalar field).
pub open spec fn fq_modulus() -> nat {
    258664426012969094010652733694893533536393512754914660539884262666720468348340822774968888139573360124440321458177nat
}

pub open spec fn modulus(f: FieldId) -> nat {
    match f {
        FieldId::BlsFr => fr_modulus(),
        FieldId::BlsFq => fq_modulus(),
    }
}

/// How many 64-bit limbs the canonical representation of an element uses.
pub open spec fn limb_count(f: FieldId) -> nat {
    match f {
        FieldId::BlsFr => 4,
        FieldId::BlsFq => 6,
    }
}

/// The integer encoded by a little-endian sequence of 64-bit limbs.
pub open spec fn limbs_val(s: Seq<u64>) -> nat
    decreases s.len(),
{
    if s.len() == 0 {
        0
    } else {
        s[0] as nat + 0x10000000000000000 * limbs_val(s.subrange(1, s.len() as int))
    }
}

/// Canonical representation: the declared limb count, value below the modulus.
pub open spec fn canonical(f: FieldId, s: Seq<u64>) -> bool {
    s.len() == limb_count(f) && limbs_val(s) < modulus(f)
}

/// Relies on `ark_ff` `Fp` addition: the sum of two canonical elements of the
/// BLS12-377 scalar field, reduced modulo the field's prime.
#[verifier::external_body]
fn fr_add(a: &Vec<u64>, b: &Vec<u64>) -> (r: Vec<u64>)
    requires
        canonical(FieldId::BlsFr, a@),
        canonical(FieldId::BlsFr, b@),
    ensures
        canonical(FieldId::BlsFr, r@),
        limbs_val(r@) == (limbs_val(a@) + limbs_val(b@)) % fr_modulus(),
{
    let x = Fr::from_bigint(BigInt::new(a.as_slice().try_into().unwrap())).unwrap();
    let y = Fr::from_bigint(BigInt::new(b.as_slice().try_into().unwrap())).unwrap();
    (x + y).into_bigint().0.to_vec()
}

/// Relies on `ark_ff` `Fp` multiplication over the BLS12-377 scalar field.
#[verifier::external_body]
fn fr_mul(a: &Vec<u64>, b: &Vec<u64>) -> (r: Vec<u64>)
    requires
        canonical(FieldId::BlsFr, a@),
        canonical(FieldId::BlsFr, b@),
    ensures
        canonical(FieldId::BlsFr, r@),
        limbs_val(r@) == (limbs_val(a@) * limbs_val(b@)) % fr_modulus(),
{
    let x = Fr::from_bigint(BigInt::new(a.as_slice().try_into().unwrap())).unwrap();
    let y = Fr::from_bigint(BigInt::new(b.as_slice().try_into().unwrap())).unwrap();
    (x * y).into_bigint().0.to_vec()
}

/// Relies on `ark_ff` `Fp` addition over the BLS12-377 base field.
#[verifier::external_body]
fn fq_add(a: &Vec<u64>, b: &Vec<u64>) -> (r: Vec<u64>)
    requires
        canonical(FieldId::BlsFq, a@),
        canonical(FieldId::BlsFq, b@),
    ensures
        canonical(FieldId::BlsFq, r@),
        limbs_val(r@) == (limbs_val(a@) + limbs_val(b@)) % fq_modulus(),
{
    let x = Fq::from_bigint(BigInt::new(a.as_slice().try_into().unwrap())).unwrap();
    let y = Fq::from_bigint(BigInt::new(b.as_slice().try_into().unwrap())).unwrap();
    (x + y).into_bigint().0.to_vec()
}

/// Relies on `ark_ff` `Fp` multiplication over the BLS12-377 base field.
#[verifier::external_body]
fn fq_mul(a: &Vec<u64>, b: &Vec<u64>) -> (r: Vec<u64>)
    requires
        canonical(FieldId::BlsFq, a@),
        canonical(FieldId::BlsFq, b@),
    ensures
        canonical(FieldId::BlsFq, r@),
        limbs_val(r@) == (limbs_val(a@) * limbs_val(b@)) % fq_modulus(),
{
    let x = Fq::from_bigint(BigInt::new(a.as_slice().try_into().unwrap())).unwrap();
    let y = Fq::from_bigint(BigInt::new(b.as_slice().try_into().unwrap())).unwrap();
    (x * y).into_bigint().0.to_vec()
}

/// Both moduli are primes of well over sixty-four bits.
pub proof fn lemma_modulus_large(f: FieldId)
    ensures
        modulus(f) > 0x10000000000000000,
{
}

/// A limb sequence that is zero from position `from` on encodes what its
/// prefix encodes times nothing beyond the first two limbs' weights.
proof fn lemma_limbs_val_zero_tail(s: Seq<u64>, from: int)
    requires
        0 <= from <= s.len(),
        forall|i: int| from <= i < s.len() ==> s[i] == 0,
    ensures
        from == 0 ==> limbs_val(s) == 0,
        from == 1 && s.len() >= 1 ==> limbs_val(s) == s[0] as nat,
        from == 2 && s.len() >= 2 ==> limbs_val(s) == s[0] as nat + 0x10000000000000000 * (
        s[1] as nat),
    decreases s.len(),
{
    if from == 0 {
        if s.len() > 0 {
            let t = s.subrange(1, s.len() as int);
            lemma_limbs_val_zero_tail(t, 0);
        }
    } else {
        let t = s.subrange(1, s.len() as int);
        lemma_limbs_val_zero_tail(t, from - 1);
    }
}

/// The canonical representation of a 64-bit integer in the field `f`: the
/// integer as the lowest limb, zeros above.
pub fn fe_from_u64(f: FieldId, x: u64) -> (r: Vec<u64>)
    ensures
        canonical(f, r@),
        limbs_val(r@) == x as nat,
{
    let n: usize = match f {
        FieldId::BlsFr => 4,
        FieldId::BlsFq => 6,
    };
    let mut v: Vec<u64> = Vec::new();
    v.push(x);
    while v.len() < n
        invariant
            1 <= v@.len() <= n,
            v@[0] == x,
            forall|i: int| 1 <= i < v@.len() ==> v@[i] == 0,
        decreases n - v.len(),
    {
        v.push(0);
    }
    proof {
        lemma_limbs_val_zero_tail(v@, 1);
        lemma_modulus_large(f);
    }
    v
}

/// The canonical representation of a 128-bit integer in the field `f`: its
/// two 64-bit halves as the lowest limbs, zeros above (both moduli exceed
/// `2^128`).
pub fn fe_from_u128(f: FieldId, x: u128) -> (r: Vec<u64>)
    ensures
        canonical(f, r@),
        limbs_val(r@) == x as nat,
{
    let n: usize = match f {
        FieldId::BlsFr => 4,
        FieldId::BlsFq => 6,
    };
    let lo: u64 = x as u64;
    let hi: u64 = (x >> 64) as u64;
    proof {
        assert(lo == x as u64 && hi == (x >> 64) as u64 ==> x == lo + 0x10000000000000000u128
            * (hi as u128)) by (bit_vector);
    }
    let mut v: Vec<u64> = Vec::new();
    v.push(lo);
    v.push(hi);
    while v.len() < n
        invariant
            2 <= v@.len() <= n,
            v@[0] == lo && v@[1] == hi,
            forall|i: int| 2 <= i < v@.len() ==> v@[i] == 0,
        decreases n - v.len(),
    {
        v.push(0);
    }
    proof {
        lemma_limbs_val_zero_tail(v@, 2);
        assert(modulus(f) > x as nat) by {
            assert(fr_modulus() > 0x100000000000000000000000000000000);
            assert(fq_modulus() > 0x100000000000000000000000000000000);
        }
    }
    v
}

/// Sum of two canonical elements of the field `f`, reduced mod its prime.
pub fn fe_add(f: FieldId, a: &Vec<u64>, b: &Vec<u64>) -> (r: Vec<u64>)
    requires
        canonical(f, a@),
        canonical(f, b@),
    ensures
        canonical(f, r@),
        limbs_val(r@) == (limbs_val(a@) + limbs_val(b@)) % modulus(f),
{
    match f {
        FieldId::BlsFr => fr_add(a, b),
        FieldId::BlsFq => fq_add(a, b),
    }
}

/// Product of two canonical elements of the field `f`, reduced mod its prime.
pub fn fe_mul(f: FieldId, a: &Vec<u64>, b: &Vec<u64>) -> (r: Vec<u64>)
    requires
        canonical(f, a@),
        canonical(f, b@),
    ensures
        canonical(f, r@),
        limbs_val(r@) == (limbs_val(a@) * limbs_val(b@)) % modulus(f),
{
    match f {
        FieldId::BlsFr => fr_mul(a, b),
        FieldId::BlsFq => fq_mul(a, b),
    }
}

} // verus!
