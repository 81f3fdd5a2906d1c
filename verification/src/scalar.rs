//! Field scalars held as canonical 32-byte little-endian encodings.
//!
//! The arithmetic itself is performed by `curve25519_dalek`; each operation
//! is a trusted wrapper whose contract states the result as a residue modulo
//! the subgroup order, over the byte-level value of the encodings.

use crate::field::{
    add_q, group_order, inv_q, le_bytes_val, lemma_add_q_noop, lemma_inv_q_unique,
    lemma_le_bytes_val_injective, lemma_mul_q_noop, mul_q, neg_q, sub_q,
};
use subtle::ConstantTimeEq;
use vstd::prelude::*;

verus! {

/// Relies on curve25519_dalek's `Scalar::from_canonical_bytes` (accepts
/// exactly the canonical encodings), `Add`, and `to_bytes`: addition modulo
/// the subgroup order.
#[verifier::external_body]
fn scalar_add_bytes(a: &[u8; 32], b: &[u8; 32]) -> (r: [u8; 32])
    requires
        le_bytes_val(a@) < group_order(),
        le_bytes_val(b@) < group_order(),
    ensures
        le_bytes_val(r@) == add_q(le_bytes_val(a@), le_bytes_val(b@)),
{
    let x = curve25519_dalek::scalar::Scalar::from_canonical_bytes(*a).unwrap();
    let y = curve25519_dalek::scalar::Scalar::from_canonical_bytes(*b).unwrap();
    (x + y).to_bytes()
}

/// Relies on curve25519_dalek's `Scalar` `Sub`: subtraction modulo the
/// subgroup order.
#[verifier::external_body]
fn scalar_sub_bytes(a: &[u8; 32], b: &[u8; 32]) -> (r: [u8; 32])
    requires
        le_bytes_val(a@) < group_order(),
        le_bytes_val(b@) < group_order(),
    ensures
        le_bytes_val(r@) == sub_q(le_bytes_val(a@), le_bytes_val(b@)),
{
    let x = curve25519_dalek::scalar::Scalar::from_canonical_bytes(*a).unwrap();
    let y = curve25519_dalek::scalar::Scalar::from_canonical_bytes(*b).unwrap();
    (x - y).to_bytes()
}

/// Relies on curve25519_dalek's `Scalar` `Mul`: multiplication modulo the
/// subgroup order.
#[verifier::external_body]
fn scalar_mul_bytes(a: &[u8; 32], b: &[u8; 32]) -> (r: [u8; 32])
    requires
        le_bytes_val(a@) < group_order(),
        le_bytes_val(b@) < group_order(),
    ensures
        le_bytes_val(r@) == mul_q(le_bytes_val(a@), le_bytes_val(b@)),
{
    let x = curve25519_dalek::scalar::Scalar::from_canonical_bytes(*a).unwrap();
    let y = curve25519_dalek::scalar::Scalar::from_canonical_bytes(*b).unwrap();
    (x * y).to_bytes()
}

/// Relies on curve25519_dalek's `Scalar` `Neg`: negation modulo the subgroup
/// order.
#[verifier::external_body]
fn scalar_neg_bytes(a: &[u8; 32]) -> (r: [u8; 32])
    requires
        le_bytes_val(a@) < group_order(),
    ensures
        le_bytes_val(r@) == neg_q(le_bytes_val(a@)),
{
    let x = curve25519_dalek::scalar::Scalar::from_canonical_bytes(*a).unwrap();
    (-x).to_bytes()
}

/// Relies on curve25519_dalek's `Scalar::invert`: for a nonzero scalar the
/// result is its multiplicative inverse modulo the subgroup order.
#[verifier::external_body]
fn scalar_invert_bytes(a: &[u8; 32]) -> (r: [u8; 32])
    requires
        0 < le_bytes_val(a@) < group_order(),
    ensures
        le_bytes_val(r@) < group_order(),
        mul_q(le_bytes_val(a@), le_bytes_val(r@)) == 1,
{
    let x = curve25519_dalek::scalar::Scalar::from_canonical_bytes(*a).unwrap();
    x.invert().to_bytes()
}

/// Relies on curve25519_dalek's `From<u32> for Scalar`: the canonical
/// encoding of the given integer.
#[verifier::external_body]
fn scalar_from_u32_bytes(x: u32) -> (r: [u8; 32])
    ensures
        le_bytes_val(r@) == x as nat,
{
    curve25519_dalek::scalar::Scalar::from(x).to_bytes()
}

/// Relies on curve25519_dalek's `Scalar::random` over the operating system's
/// CSPRNG: the result is a canonically encoded scalar.  Nothing is claimed of
/// its value, which differs from draw to draw.
#[verifier::external_body]
fn scalar_random_bytes() -> (r: [u8; 32])
    ensures
        le_bytes_val(r@) < group_order(),
{
    curve25519_dalek::scalar::Scalar::random(&mut rand::rngs::OsRng).to_bytes()
}

/// Relies on curve25519_dalek's `Scalar::from_canonical_bytes`: it returns
/// `Some` exactly when the bytes are a canonical encoding, that is when their
/// little-endian value lies below the subgroup order.
#[verifier::external_body]
fn scalar_canonical_check(a: &[u8; 32]) -> (r: bool)
    ensures
        r == (le_bytes_val(a@) < group_order()),
{
    curve25519_dalek::scalar::Scalar::from_canonical_bytes(*a).is_some()
}

/// Relies on the `subtle` crate's `ConstantTimeEq` for byte slices: equality
/// of the two arrays, decided in constant time.
#[verifier::external_body]
pub(crate) fn ct_eq_bytes32(a: &[u8; 32], b: &[u8; 32]) -> (r: bool)
    ensures
        r == (a@ =~= b@),
{
    a.ct_eq(b).into()
}

/// A scalar of the field underlying the group, held as its canonical 32-byte
/// little-endian encoding.  Its mathematical value is the view `@`.
#[derive(Clone, Copy, Debug, PartialEq, Eq)]
pub struct FieldScalar {
    pub bytes: [u8; 32],
}

impl View for FieldScalar {
    type V = nat;

    open spec fn view(&self) -> nat {
        le_bytes_val(self.bytes@)
    }
}

impl FieldScalar {
    /// A well-formed scalar is canonically encoded.
    pub open spec fn wf(&self) -> bool {
        self@ < group_order()
    }

    /// The zero scalar.
    pub fn zero() -> (r: FieldScalar)
        ensures
            r.wf(),
            r@ == 0,
    {
        let r = FieldScalar { bytes: [0u8; 32] };
        proof {
            lemma_all_zero_val(r.bytes@);
        }
        r
    }

    /// The scalar one.
    pub fn one() -> (r: FieldScalar)
        ensures
            r.wf(),
            r@ == 1,
    {
        FieldScalar::from_u32(1)
    }

    /// The scalar with the value of the given integer.
    pub fn from_u32(x: u32) -> (r: FieldScalar)
        ensures
            r.wf(),
            r@ == x as nat,
    {
        let bytes = scalar_from_u32_bytes(x);
        proof {
            assert(0xffffffff < group_order());
        }
        FieldScalar { bytes }
    }

    /// A uniformly random scalar from the system CSPRNG.
    pub fn random() -> (r: FieldScalar)
        ensures
            r.wf(),
    {
        FieldScalar { bytes: scalar_random_bytes() }
    }

    pub fn add(&self, other: &FieldScalar) -> (r: FieldScalar)
        requires
            self.wf(),
            other.wf(),
        ensures
            r.wf(),
            r@ == add_q(self@, other@),
    {
        proof {
            lemma_add_q_noop(self@, other@);
        }
        FieldScalar { bytes: scalar_add_bytes(&self.bytes, &other.bytes) }
    }

    pub fn sub(&self, other: &FieldScalar) -> (r: FieldScalar)
        requires
            self.wf(),
            other.wf(),
        ensures
            r.wf(),
            r@ == sub_q(self@, other@),
    {
        proof {
            lemma_add_q_noop(self@, neg_q(other@));
        }
        FieldScalar { bytes: scalar_sub_bytes(&self.bytes, &other.bytes) }
    }

    pub fn mul(&self, other: &FieldScalar) -> (r: FieldScalar)
        requires
            self.wf(),
            other.wf(),
        ensures
            r.wf(),
            r@ == mul_q(self@, other@),
    {
        proof {
            lemma_mul_q_noop(self@, other@);
        }
        FieldScalar { bytes: scalar_mul_bytes(&self.bytes, &other.bytes) }
    }

    pub fn neg(&self) -> (r: FieldScalar)
        requires
            self.wf(),
        ensures
            r.wf(),
            r@ == neg_q(self@),
    {
        proof {
            let q = group_order() as int;
            vstd::arithmetic::div_mod::lemma_mod_bound(self@ as int, q);
            vstd::arithmetic::div_mod::lemma_mod_bound(q - (self@ as int % q), q);
        }
        FieldScalar { bytes: scalar_neg_bytes(&self.bytes) }
    }

    /// The multiplicative inverse of a nonzero scalar.
    pub fn invert(&self) -> (r: FieldScalar)
        requires
            self.wf(),
            self@ != 0,
        ensures
            r.wf(),
            r@ == inv_q(self@),
            mul_q(self@, r@) == 1,
    {
        let r = FieldScalar { bytes: scalar_invert_bytes(&self.bytes) };
        proof {
            lemma_inv_q_unique(self@, r@);
        }
        r
    }

    /// Whether the scalar is zero; public data, decided in constant time.
    pub fn is_zero(&self) -> (r: bool)
        ensures
            r == (self@ == 0),
    {
        let z = FieldScalar::zero();
        let r = ct_eq_bytes32(&self.bytes, &z.bytes);
        proof {
            if self.bytes@ =~= z.bytes@ {
            } else {
                if self@ == 0 {
                    lemma_le_bytes_val_injective(self.bytes@, z.bytes@);
                }
            }
        }
        r
    }

    /// Constant-time equality of scalar values.
    pub fn ct_eq(&self, other: &FieldScalar) -> (r: bool)
        ensures
            r == (self@ == other@),
    {
        let r = ct_eq_bytes32(&self.bytes, &other.bytes);
        proof {
            if !(self.bytes@ =~= other.bytes@) && self@ == other@ {
                lemma_le_bytes_val_injective(self.bytes@, other.bytes@);
            }
        }
        r
    }

    /// Whether this scalar is canonically encoded, decided at run time;
    /// used to validate caller-built values.
    pub fn check_canonical(&self) -> (r: bool)
        ensures
            r == self.wf(),
    {
        scalar_canonical_check(&self.bytes)
    }

    /// The canonical encoding of this scalar.
    pub fn to_bytes(&self) -> (r: [u8; 32])
        ensures
            r@ == self.bytes@,
            le_bytes_val(r@) == self@,
            r@.len() == 32,
    {
        self.bytes
    }

    /// Decode a canonical scalar encoding; rejects any 32-byte string whose
    /// value is not reduced below the subgroup order.
    pub fn from_bytes(bytes: &[u8; 32]) -> (r: Option<FieldScalar>)
        ensures
            r is Some <==> le_bytes_val(bytes@) < group_order(),
            r is Some ==> r.unwrap().wf() && r.unwrap()@ == le_bytes_val(bytes@)
                && r.unwrap().bytes@ == bytes@,
    {
        if scalar_canonical_check(bytes) {
            Some(FieldScalar { bytes: *bytes })
        } else {
            None
        }
    }
}

/// An all-zero byte string has value zero.
pub proof fn lemma_all_zero_val(s: Seq<u8>)
    requires
        forall|i: int| 0 <= i < s.len() ==> s[i] == 0,
    ensures
        le_bytes_val(s) == 0,
    decreases s.len(),
{
    if s.len() > 0 {
        lemma_all_zero_val(s.drop_first());
    }
}

} // verus!
