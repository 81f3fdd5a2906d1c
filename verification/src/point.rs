//! Elements of the prime-order subgroup of the Edwards curve.
//!
//! The subgroup is cyclic of prime order and generated by the basepoint, so
//! every element is determined by its discrete logarithm.  An element is
//! held as its canonical compressed encoding together with a ghost copy of
//! that logarithm; `point_of` names the encoding of each multiple of the
//! basepoint, and the trusted wrappers state every curve operation as
//! arithmetic on logarithms.  The view `@` of an element is its logarithm.

use crate::error::Error;
use crate::field::{add_q, group_order, le_bytes_val, mul_q};
use crate::scalar::{ct_eq_bytes32, FieldScalar};
use curve25519_dalek::traits::Identity;
use vstd::prelude::*;

verus! {

/// The canonical compressed encoding of `x` times the Edwards basepoint.
pub uninterp spec fn point_of(x: nat) -> Seq<u8>;

/// Whether `CompressedEdwardsY` decompression succeeds on these bytes.
pub uninterp spec fn ed_decompressible(s: Seq<u8>) -> bool;

/// Whether these bytes decompress to a point of the prime-order subgroup.
pub uninterp spec fn ed_subgroup(s: Seq<u8>) -> bool;

/// A canonical encoding of a prime-order subgroup element.
pub open spec fn valid_point_enc(s: Seq<u8>) -> bool {
    exists|x: nat| x < group_order() && s == #[trigger] point_of(x)
}

/// A discrete logarithm of a valid encoding (a preimage under `point_of`;
/// on the actual curve it is unique).
pub open spec fn log_of_enc(s: Seq<u8>) -> nat {
    choose|x: nat| x < group_order() && s == #[trigger] point_of(x)
}

/// The error reported when decoding the given bytes as a point fails: a
/// decompressible point outside the prime-order subgroup is `InvalidPoint`,
/// anything else is malformed input.
pub open spec fn point_decode_err(s: Seq<u8>) -> Error {
    if ed_decompressible(s) && !ed_subgroup(s) {
        Error::InvalidPoint
    } else {
        Error::SerialisationError
    }
}

/// Relies on curve25519_dalek's `ED25519_BASEPOINT_TABLE` multiplication and
/// `compress`: the canonical encoding of the scalar times the basepoint.
#[verifier::external_body]
fn base_mul_bytes(s: &[u8; 32]) -> (r: [u8; 32])
    requires
        le_bytes_val(s@) < group_order(),
    ensures
        r@ == point_of(le_bytes_val(s@)),
{
    let x = curve25519_dalek::scalar::Scalar::from_canonical_bytes(*s).unwrap();
    (&curve25519_dalek::constants::ED25519_BASEPOINT_TABLE * &x).compress().to_bytes()
}

/// Relies on curve25519_dalek's `CompressedEdwardsY::decompress`, point
/// addition (the group law on the curve, hence on the subgroup), and
/// `compress`: the sum of two subgroup elements given by their logarithms.
#[verifier::external_body]
fn point_add_bytes(a: &[u8; 32], b: &[u8; 32]) -> (r: [u8; 32])
    requires
        valid_point_enc(a@),
        valid_point_enc(b@),
    ensures
        forall|x: nat, y: nat|
            x < group_order() && y < group_order() && a@ == #[trigger] point_of(x) && b@
                == #[trigger] point_of(y) ==> r@ == point_of(add_q(x, y)),
{
    let p = curve25519_dalek::edwards::CompressedEdwardsY(*a).decompress().unwrap();
    let q = curve25519_dalek::edwards::CompressedEdwardsY(*b).decompress().unwrap();
    (p + q).compress().to_bytes()
}

/// Relies on curve25519_dalek's `CompressedEdwardsY::decompress`, scalar
/// multiplication of a point, and `compress`: the scalar multiple of a
/// subgroup element given by its logarithm.
#[verifier::external_body]
fn point_mul_bytes(s: &[u8; 32], p: &[u8; 32]) -> (r: [u8; 32])
    requires
        le_bytes_val(s@) < group_order(),
        valid_point_enc(p@),
    ensures
        forall|x: nat|
            x < group_order() && p@ == #[trigger] point_of(x) ==> r@ == point_of(
                mul_q(le_bytes_val(s@), x),
            ),
{
    let k = curve25519_dalek::scalar::Scalar::from_canonical_bytes(*s).unwrap();
    let q = curve25519_dalek::edwards::CompressedEdwardsY(*p).decompress().unwrap();
    (q * k).compress().to_bytes()
}

/// Relies on curve25519_dalek's `EdwardsPoint::identity` and `compress`: the
/// canonical encoding of the neutral element.
#[verifier::external_body]
fn point_identity_bytes() -> (r: [u8; 32])
    ensures
        r@ == point_of(0),
{
    curve25519_dalek::edwards::EdwardsPoint::identity().compress().to_bytes()
}

/// Relies on curve25519_dalek's `CompressedEdwardsY::decompress`,
/// `EdwardsPoint::is_torsion_free` and `compress`.  Returns 0 when the bytes
/// are the canonical encoding of a prime-order subgroup element, 2 when they
/// decompress to a point outside that subgroup, and 1 otherwise (not
/// decompressible, or a non-canonical encoding).
#[verifier::external_body]
fn point_check_bytes(b: &[u8; 32]) -> (r: u8)
    ensures
        r == (if valid_point_enc(b@) {
            0u8
        } else if ed_decompressible(b@) && !ed_subgroup(b@) {
            2u8
        } else {
            1u8
        }),
{
    match curve25519_dalek::edwards::CompressedEdwardsY(*b).decompress() {
        None => 1,
        Some(p) => {
            if !p.is_torsion_free() {
                2
            } else if p.compress().to_bytes() == *b {
                0
            } else {
                1
            }
        },
    }
}

/// An element of the prime-order subgroup: its canonical compressed
/// encoding, together with its discrete logarithm as a ghost value.  The
/// view `@` is the logarithm.
#[derive(Clone, Copy)]
pub struct GroupElement {
    pub bytes: [u8; 32],
    pub log: Ghost<nat>,
}

impl View for GroupElement {
    type V = nat;

    open spec fn view(&self) -> nat {
        self.log@
    }
}

impl GroupElement {
    /// A well-formed element: the bytes are the canonical encoding of the
    /// ghost logarithm.
    pub open spec fn wf(&self) -> bool {
        self.log@ < group_order() && self.bytes@ == point_of(self.log@)
    }

    /// The compressed encoding, as a byte sequence.
    pub open spec fn enc(&self) -> Seq<u8> {
        self.bytes@
    }

    /// The neutral element.
    pub fn identity() -> (r: GroupElement)
        ensures
            r.wf(),
            r@ == 0,
    {
        GroupElement { bytes: point_identity_bytes(), log: Ghost(0) }
    }

    /// The scalar times the basepoint.
    pub fn base_mul(s: &FieldScalar) -> (r: GroupElement)
        requires
            s.wf(),
        ensures
            r.wf(),
            r@ == s@,
    {
        GroupElement { bytes: base_mul_bytes(&s.bytes), log: Ghost(s@) }
    }

    /// The sum of two subgroup elements: logarithms add.
    pub fn add(&self, other: &GroupElement) -> (r: GroupElement)
        requires
            self.wf(),
            other.wf(),
        ensures
            r.wf(),
            r@ == add_q(self@, other@),
    {
        let bytes = point_add_bytes(&self.bytes, &other.bytes);
        proof {
            vstd::arithmetic::div_mod::lemma_mod_bound(
                (self.log@ + other.log@) as int,
                group_order() as int,
            );
        }
        GroupElement { bytes, log: Ghost(add_q(self.log@, other.log@)) }
    }

    /// The scalar multiple of a subgroup element: the logarithm is scaled.
    pub fn scalar_mul(&self, s: &FieldScalar) -> (r: GroupElement)
        requires
            self.wf(),
            s.wf(),
        ensures
            r.wf(),
            r@ == mul_q(s@, self@),
    {
        let bytes = point_mul_bytes(&s.bytes, &self.bytes);
        proof {
            vstd::arithmetic::div_mod::lemma_mod_bound(
                (s@ * self.log@) as int,
                group_order() as int,
            );
        }
        GroupElement { bytes, log: Ghost(mul_q(s@, self.log@)) }
    }

    /// Constant-time equality of the canonical encodings.  Well-formed
    /// elements compare equal exactly when their encodings agree; equal
    /// logarithms give equal encodings.
    pub fn ct_eq(&self, other: &GroupElement) -> (r: bool)
        ensures
            r == (self.enc() =~= other.enc()),
            self.wf() && other.wf() && self@ == other@ ==> r,
    {
        ct_eq_bytes32(&self.bytes, &other.bytes)
    }

    /// The compressed encoding as an owned array.
    pub fn to_bytes(&self) -> (r: [u8; 32])
        ensures
            r@ == self.enc(),
    {
        self.bytes
    }

    /// Decode a compressed encoding, rejecting anything that is not the
    /// canonical encoding of a prime-order subgroup element.
    pub fn decode(bytes: &[u8; 32]) -> (r: Result<GroupElement, Error>)
        ensures
            r is Ok <==> valid_point_enc(bytes@),
            r matches Ok(p) ==> p.wf() && p.enc() == bytes@ && p@ == log_of_enc(bytes@),
            r matches Err(e) ==> e == point_decode_err(bytes@),
    {
        let tag = point_check_bytes(bytes);
        if tag == 0 {
            let r = GroupElement { bytes: *bytes, log: Ghost(log_of_enc(bytes@)) };
            proof {
                let x = choose|x: nat| x < group_order() && bytes@ == #[trigger] point_of(x);
                assert(r.log@ == x);
            }
            Ok(r)
        } else if tag == 2 {
            Err(Error::InvalidPoint)
        } else {
            Err(Error::SerialisationError)
        }
    }

    /// Whether this element is well-formed, decided at run time from the
    /// bytes; used to validate caller-built values before computing on them.
    pub fn check_valid(&self) -> (r: bool)
        ensures
            r ==> valid_point_enc(self.enc()),
            self.wf() ==> r,
    {
        point_check_bytes(&self.bytes) == 0
    }
}

} // verus!
