//! Polynomials, Feldman commitments, and secret shares.
//!
//! A dealer holds a secret polynomial of degree `t - 1` whose constant term
//! is the contributed secret; the commitment publishes each coefficient
//! times the basepoint, and a receiver checks its share against the
//! commitment by comparing `value * B` with the commitment polynomial
//! evaluated at its own index.

use crate::encoding::{chunk32, extend_bytes, extend_u32, read_bytes32_at, read_u32_at, write_bytes};
use crate::error::Error;
use crate::field::{add_q, group_order, le_bytes_val, mul_q};
use crate::point::{point_decode_err, point_of, valid_point_enc, GroupElement};
use crate::scalar::FieldScalar;
use crate::wipe::zeroize_bytes32;
use vstd::bytes::{spec_u32_from_le_bytes, spec_u32_to_le_bytes};
use vstd::pervasive::VecAdditionalExecFns;
use vstd::prelude::*;

verus! {

/// The values of a sequence of scalars.
pub open spec fn scalar_vals(s: Seq<FieldScalar>) -> Seq<nat> {
    s.map(|i: int, c: FieldScalar| c@)
}

/// The logarithms of a sequence of group elements.
pub open spec fn point_logs(s: Seq<GroupElement>) -> Seq<nat> {
    s.map(|i: int, p: GroupElement| p@)
}

/// Evaluation of the polynomial with the given coefficients (constant term
/// first) at `x`, as a residue modulo the subgroup order.
pub open spec fn poly_eval(c: Seq<nat>, x: nat) -> nat
    decreases c.len(),
{
    if c.len() == 0 {
        0
    } else {
        add_q(c[0], mul_q(x, poly_eval(c.drop_first(), x)))
    }
}

/// The coefficients of a dealer's secret polynomial, constant term first.
/// The constant term is the contributed secret.
#[derive(Clone, Debug, PartialEq, Eq)]
pub struct Coefficients(pub Vec<FieldScalar>);

impl Coefficients {
    pub open spec fn wf(&self) -> bool {
        forall|i: int| 0 <= i < self.0@.len() ==> self.0@[i].wf()
    }

    /// The values of the coefficients, constant term first.
    pub open spec fn vals(&self) -> Seq<nat> {
        scalar_vals(self.0@)
    }

    /// The layout: `len(4) || scalar(32) * len`.
    pub open spec fn enc(&self) -> Seq<u8> {
        spec_u32_to_le_bytes(self.0@.len() as u32) + Seq::new(
            self.0@.len() * 32,
            |i: int| self.0@[i / 32].bytes@[i % 32],
        )
    }

    /// Serialise these coefficients.
    pub fn to_bytes(&self) -> (r: Vec<u8>)
        requires
            self.0@.len() <= 0xffffffff,
        ensures
            r@ == self.enc(),
    {
        let n: usize = self.0.len();
        let mut res: Vec<u8> = Vec::new();
        extend_u32(&mut res, n as u32);
        proof {
            vstd::bytes::lemma_auto_spec_u32_to_from_le_bytes();
        }
        let mut i: usize = 0;
        while i < n
            invariant
                i <= n,
                n == self.0@.len(),
                res@.len() == 4 + i * 32,
                res@.subrange(0, 4) =~= spec_u32_to_le_bytes(n as u32),
                forall|j: int|
                    0 <= j < i * 32 ==> #[trigger] res@[4 + j] == self.0@[j / 32].bytes@[j % 32],
            decreases n - i,
        {
            let b = self.0[i].to_bytes();
            extend_bytes(&mut res, b.as_slice());
            proof {
                assert forall|j: int| 0 <= j < (i + 1) * 32 implies #[trigger] res@[4 + j]
                    == self.0@[j / 32].bytes@[j % 32] by {
                    if j < i * 32 {
                    } else {
                        assert(j / 32 == i && j % 32 == j - i * 32) by (nonlinear_arith)
                            requires
                                i * 32 <= j < (i + 1) * 32,
                        ;
                    }
                }
            }
            i += 1;
        }
        proof {
            assert forall|idx: int| 0 <= idx < res@.len() implies res@[idx] == self.enc()[idx] by {
                if idx < 4 {
                    assert(res@[idx] == res@.subrange(0, 4)[idx]);
                } else {
                    let j = idx - 4;
                    assert(res@[4 + j] == self.0@[j / 32].bytes@[j % 32]);
                }
            }
            assert(res@ =~= self.enc());
        }
        res
    }

    /// Deserialise coefficients; every scalar must be canonical.
    pub fn from_bytes(bytes: &[u8]) -> (r: Result<Coefficients, Error>)
        ensures
            r is Ok <==> bytes@.len() >= 4 && {
                let m = spec_u32_from_le_bytes(bytes@.subrange(0, 4)) as int;
                bytes@.len() >= 4 + 32 * m && forall|j: int|
                    0 <= j < m ==> le_bytes_val(
                        #[trigger] chunk32(bytes@, 4, j),
                    ) < group_order()
            },
            r matches Ok(c) ==> {
                let m = spec_u32_from_le_bytes(bytes@.subrange(0, 4)) as int;
                &&& c.wf()
                &&& c.0@.len() == m
                &&& forall|j: int|
                    0 <= j < m ==> (#[trigger] c.0@[j]).bytes@ == chunk32(bytes@, 4, j)
            },
            r matches Err(e) ==> e == Error::SerialisationError,
    {
        let blen: usize = bytes.len();
        if blen < 4 {
            return Err(Error::SerialisationError);
        }
        let m_u32 = read_u32_at(bytes, 0);
        let m = m_u32 as usize;
        if m > (usize::MAX - 4) / 32 {
            proof {
                vstd::arithmetic::div_mod::lemma_fundamental_div_mod((usize::MAX - 4) as int, 32);
            }
            return Err(Error::SerialisationError);
        }
        if blen < 4 + 32 * m {
            return Err(Error::SerialisationError);
        }
        let mut scalars: Vec<FieldScalar> = Vec::new();
        let mut j: usize = 0;
        while j < m
            invariant
                j <= m,
                blen == bytes@.len(),
                m == spec_u32_from_le_bytes(bytes@.subrange(0, 4)) as usize,
                4 + 32 * m <= blen,
                scalars@.len() == j,
                forall|k: int|
                    0 <= k < j ==> (#[trigger] scalars@[k]).wf() && scalars@[k].bytes@
                        == chunk32(bytes@, 4, k),
            decreases m - j,
        {
            let chunk = read_bytes32_at(bytes, 4 + 32 * j);
            proof {
                assert(chunk@ =~= chunk32(bytes@, 4, j as int));
            }
            match FieldScalar::from_bytes(&chunk) {
                Some(s) => {
                    scalars.push(s);
                },
                None => {
                    proof {
                        assert(le_bytes_val(chunk32(bytes@, 4, j as int)) >= group_order());
                    }
                    return Err(Error::SerialisationError);
                },
            }
            j += 1;
        }
        proof {
            assert forall|k: int| 0 <= k < m implies le_bytes_val(
                #[trigger] chunk32(bytes@, 4, k),
            ) < group_order() by {
                assert(scalars@[k].wf());
                assert(scalars@[k].bytes@ == chunk32(bytes@, 4, k));
            }
        }
        Ok(Coefficients(scalars))
    }

    /// Overwrite every coefficient with zero.
    pub fn zeroize(&mut self)
        ensures
            final(self).0@.len() == old(self).0@.len(),
            forall|i: int| 0 <= i < final(self).0@.len() ==> (#[trigger] final(self).0@[i])@ == 0,
    {
        let n: usize = self.0.len();
        let mut i: usize = 0;
        while i < n
            invariant
                i <= n,
                n == self.0@.len(),
                forall|k: int| 0 <= k < i ==> (#[trigger] self.0@[k])@ == 0,
            decreases n - i,
        {
            let mut s = self.0[i];
            zeroize_bytes32(&mut s.bytes);
            proof {
                crate::scalar::lemma_all_zero_val(s.bytes@);
            }
            self.0.set(i, s);
            i += 1;
        }
    }
}

/// A commitment to a participant's secret polynomial coefficients for
/// Feldman's verifiable secret sharing scheme: each point is the matching
/// coefficient times the basepoint.
#[derive(Clone)]
pub struct VerifiableSecretSharingCommitment {
    /// The index of the participant the commitment belongs to.
    pub index: u32,
    /// The commitments to the participant's secret coefficients.
    pub points: Vec<GroupElement>,
}

impl VerifiableSecretSharingCommitment {
    pub open spec fn wf(&self) -> bool {
        forall|i: int| 0 <= i < self.points@.len() ==> (#[trigger] self.points@[i]).wf()
    }

    /// The logarithms of the committed points, i.e. the committed
    /// coefficient values.
    pub open spec fn logs(&self) -> Seq<nat> {
        point_logs(self.points@)
    }

    /// Retrieve the commitment to the constant term, which is the dealer's
    /// public key.
    pub fn public_key(&self) -> (r: Option<&GroupElement>)
        ensures
            r is Some <==> self.points@.len() > 0,
            r matches Some(p) ==> *p == self.points@[0],
    {
        if self.points.len() > 0 {
            return Some(&self.points[0]);
        }
        None
    }

    /// The layout: `index(4) || len(4) || point(32) * len`.
    pub open spec fn enc(&self) -> Seq<u8> {
        spec_u32_to_le_bytes(self.index) + spec_u32_to_le_bytes(self.points@.len() as u32)
            + Seq::new(self.points@.len() * 32, |i: int| self.points@[i / 32].bytes@[i % 32])
    }

    /// Serialise this commitment.
    pub fn to_bytes(&self) -> (r: Vec<u8>)
        requires
            self.points@.len() <= 0xffffffff,
        ensures
            r@ == self.enc(),
    {
        let n: usize = self.points.len();
        let mut res: Vec<u8> = Vec::new();
        extend_u32(&mut res, self.index);
        extend_u32(&mut res, n as u32);
        proof {
            vstd::bytes::lemma_auto_spec_u32_to_from_le_bytes();
        }
        let mut i: usize = 0;
        while i < n
            invariant
                i <= n,
                n == self.points@.len(),
                res@.len() == 8 + i * 32,
                res@.subrange(0, 4) =~= spec_u32_to_le_bytes(self.index),
                res@.subrange(4, 8) =~= spec_u32_to_le_bytes(n as u32),
                forall|j: int|
                    0 <= j < i * 32 ==> #[trigger] res@[8 + j] == self.points@[j / 32].bytes@[j
                        % 32],
            decreases n - i,
        {
            let b = self.points[i].to_bytes();
            extend_bytes(&mut res, b.as_slice());
            proof {
                assert forall|j: int| 0 <= j < (i + 1) * 32 implies #[trigger] res@[8 + j]
                    == self.points@[j / 32].bytes@[j % 32] by {
                    if j < i * 32 {
                    } else {
                        assert(j / 32 == i && j % 32 == j - i * 32) by (nonlinear_arith)
                            requires
                                i * 32 <= j < (i + 1) * 32,
                        ;
                    }
                }
            }
            i += 1;
        }
        proof {
            assert forall|idx: int| 0 <= idx < res@.len() implies res@[idx] == self.enc()[idx] by {
                if idx < 4 {
                    assert(res@[idx] == res@.subrange(0, 4)[idx]);
                } else if idx < 8 {
                    assert(res@[idx] == res@.subrange(4, 8)[idx - 4]);
                } else {
                    let j = idx - 8;
                    assert(res@[8 + j] == self.points@[j / 32].bytes@[j % 32]);
                }
            }
            assert(res@ =~= self.enc());
        }
        res
    }

    /// Deserialise a commitment; every point must be a canonical encoding
    /// of a subgroup element.
    pub fn from_bytes(bytes: &[u8]) -> (r: Result<VerifiableSecretSharingCommitment, Error>)
        ensures
            r is Ok <==> bytes@.len() >= 8 && {
                let m = spec_u32_from_le_bytes(bytes@.subrange(4, 8)) as int;
                bytes@.len() >= 8 + 32 * m && forall|j: int|
                    0 <= j < m ==> valid_point_enc(
                        #[trigger] chunk32(bytes@, 8, j),
                    )
            },
            r matches Ok(c) ==> {
                let m = spec_u32_from_le_bytes(bytes@.subrange(4, 8)) as int;
                &&& c.wf()
                &&& c.index == spec_u32_from_le_bytes(bytes@.subrange(0, 4))
                &&& c.points@.len() == m
                &&& forall|j: int|
                    0 <= j < m ==> (#[trigger] c.points@[j]).enc() == chunk32(bytes@, 8, j)
            },
            r matches Err(e) ==> bytes@.len() >= 8 ==> {
                let m = spec_u32_from_le_bytes(bytes@.subrange(4, 8)) as int;
                bytes@.len() >= 8 + 32 * m ==> exists|j: int|
                    {
                        &&& 0 <= j < m
                        &&& !valid_point_enc(#[trigger] chunk32(bytes@, 8, j))
                        &&& e == point_decode_err(chunk32(bytes@, 8, j))
                        &&& (forall|k: int|
                            0 <= k < j ==> valid_point_enc(
                                #[trigger] chunk32(bytes@, 8, k),
                            ))
                    }
            },
            r matches Err(e) ==> e == Error::SerialisationError || e == Error::InvalidPoint,
    {
        let blen: usize = bytes.len();
        if blen < 8 {
            return Err(Error::SerialisationError);
        }
        let index = read_u32_at(bytes, 0);
        let m_u32 = read_u32_at(bytes, 4);
        let m = m_u32 as usize;
        if m > (usize::MAX - 8) / 32 {
            proof {
                vstd::arithmetic::div_mod::lemma_fundamental_div_mod((usize::MAX - 8) as int, 32);
            }
            return Err(Error::SerialisationError);
        }
        if blen < 8 + 32 * m {
            return Err(Error::SerialisationError);
        }
        let mut points: Vec<GroupElement> = Vec::new();
        let mut j: usize = 0;
        while j < m
            invariant
                j <= m,
                blen == bytes@.len(),
                m == spec_u32_from_le_bytes(bytes@.subrange(4, 8)) as usize,
                8 + 32 * m <= blen,
                points@.len() == j,
                forall|k: int|
                    0 <= k < j ==> (#[trigger] points@[k]).wf() && points@[k].enc()
                        == chunk32(bytes@, 8, k),
            decreases m - j,
        {
            let chunk = read_bytes32_at(bytes, 8 + 32 * j);
            proof {
                assert(chunk@ =~= chunk32(bytes@, 8, j as int));
                assert forall|k: int| 0 <= k < j implies valid_point_enc(
                    #[trigger] chunk32(bytes@, 8, k),
                ) by {
                    assert(points@[k].wf());
                    assert(chunk32(bytes@, 8, k) == points@[k].bytes@);
                    assert(points@[k].bytes@ == point_of(points@[k].log@));
                }
            }
            match GroupElement::decode(&chunk) {
                Ok(p) => {
                    points.push(p);
                },
                Err(e) => {
                    proof {
                        assert(!valid_point_enc(
                            chunk32(bytes@, 8, j as int),
                        ));
                    }
                    return Err(e);
                },
            }
            j += 1;
        }
        proof {
            assert forall|k: int| 0 <= k < m implies valid_point_enc(
                #[trigger] chunk32(bytes@, 8, k),
            ) by {
                assert(points@[k].wf());
                assert(chunk32(bytes@, 8, k) == points@[k].bytes@);
                assert(points@[k].bytes@ == point_of(points@[k].log@));
            }
        }
        Ok(VerifiableSecretSharingCommitment { index, points })
    }
}

/// Evaluate a commitment's polynomial, in the group, at the given point:
/// Horner's method over the committed points from the highest coefficient
/// down.
pub fn commitment_eval(commitment: &VerifiableSecretSharingCommitment, term: &FieldScalar) -> (r:
    GroupElement)
    requires
        commitment.wf(),
        term.wf(),
    ensures
        r.wf(),
        r@ == poly_eval(commitment.logs(), term@),
{
    let mut rhs = GroupElement::identity();
    let n: usize = commitment.points.len();
    let ghost logs = commitment.logs();
    let ghost x = term@;
    let mut i: usize = n;
    proof {
        assert(logs.skip(n as int) =~= Seq::<nat>::empty());
    }
    while i > 0
        invariant
            i <= n,
            n == commitment.points@.len(),
            commitment.wf(),
            term.wf(),
            term@ == x,
            logs == commitment.logs(),
            rhs.wf(),
            rhs@ == poly_eval(logs.skip(i as int), x),
        decreases i,
    {
        i = i - 1;
        let scaled = rhs.scalar_mul(term);
        rhs = scaled.add(&commitment.points[i]);
        proof {
            let tail = logs.skip(i + 1);
            assert(logs.skip(i as int).drop_first() =~= tail);
            assert(logs.skip(i as int)[0] == logs[i as int]);
            assert(poly_eval(logs.skip(i as int), x) == add_q(
                logs[i as int],
                mul_q(x, poly_eval(tail, x)),
            ));
            crate::field::lemma_mul_q_commutes(poly_eval(tail, x), x);
            crate::field::lemma_add_q_commutes(mul_q(x, poly_eval(tail, x)), logs[i as int]);
        }
    }
    proof {
        assert(logs.skip(0) =~= logs);
    }
    rhs
}

/// A commitment whose fields were read from the head of `b` re-encodes to
/// exactly that head: the bridge between the decoder's field facts and the
/// record layout.
pub proof fn lemma_commitment_enc_matches(com: VerifiableSecretSharingCommitment, b: Seq<u8>)
    requires
        com.index == spec_u32_from_le_bytes(b.subrange(0, 4)),
        com.points@.len() == spec_u32_from_le_bytes(b.subrange(4, 8)),
        b.len() >= 8 + 32 * com.points@.len(),
        forall|j: int|
            0 <= j < com.points@.len() ==> (#[trigger] com.points@[j]).enc() == chunk32(b, 8, j),
    ensures
        com.enc() == b.subrange(0, 8 + 32 * (com.points@.len() as int)),
{
    vstd::bytes::lemma_auto_spec_u32_to_from_le_bytes();
    let m = com.points@.len() as int;
    let target = b.subrange(0, 8 + 32 * m);
    assert(spec_u32_to_le_bytes(com.index) =~= b.subrange(0, 4));
    assert(spec_u32_to_le_bytes(com.points@.len() as u32) =~= b.subrange(4, 8));
    assert forall|idx: int| 0 <= idx < com.enc().len() implies com.enc()[idx] == target[idx] by {
        if idx < 4 {
            assert(com.enc()[idx] == spec_u32_to_le_bytes(com.index)[idx]);
            assert(target[idx] == b.subrange(0, 4)[idx]);
        } else if idx < 8 {
            assert(com.enc()[idx] == spec_u32_to_le_bytes(com.points@.len() as u32)[idx - 4]);
            assert(target[idx] == b.subrange(4, 8)[idx - 4]);
        } else {
            let i = idx - 8;
            assert((i / 32) * 32 + i % 32 == i) by {
                vstd::arithmetic::div_mod::lemma_fundamental_div_mod(i, 32);
            }
            assert(0 <= i / 32 < m && 0 <= i % 32 < 32) by {
                vstd::arithmetic::div_mod::lemma_mod_bound(i, 32);
                vstd::arithmetic::div_mod::lemma_div_pos_is_pos(i, 32);
                if i / 32 >= m {
                    vstd::arithmetic::mul::lemma_mul_inequality(m, i / 32, 32);
                }
            }
            assert(com.enc()[idx] == com.points@[i / 32].bytes@[i % 32]);
            assert(com.points@[i / 32].enc() == chunk32(b, 8, i / 32));
            assert(chunk32(b, 8, i / 32)[i % 32] == b[8 + 32 * (i / 32) + i % 32]);
            assert(target[idx] == b[idx]);
        }
    }
    assert(com.enc() =~= target);
}

/// A secret share: the dealer's polynomial evaluated at the receiver's
/// index.
#[derive(Clone, Copy, Debug, PartialEq, Eq)]
pub struct SecretShare {
    /// The index of the share maker.
    pub sender_index: u32,
    /// The participant index that this secret share was calculated for.
    pub receiver_index: u32,
    /// The evaluation of the polynomial at the receiver's index.
    pub polynomial_evaluation: FieldScalar,
}

impl SecretShare {
    pub open spec fn wf(&self) -> bool {
        self.polynomial_evaluation.wf()
    }

    /// Evaluate the dealer's polynomial at the receiver's index, by
    /// Horner's method from the highest coefficient down.
    pub fn evaluate_polynomial(sender_index: &u32, receiver_index: &u32, coefficients: &Coefficients) -> (r:
        SecretShare)
        requires
            coefficients.wf(),
        ensures
            r.sender_index == *sender_index,
            r.receiver_index == *receiver_index,
            r.wf(),
            r.polynomial_evaluation@ == poly_eval(coefficients.vals(), *receiver_index as nat),
    {
        let term = FieldScalar::from_u32(*receiver_index);
        let mut sum = FieldScalar::zero();
        let n: usize = coefficients.0.len();
        let ghost vals = coefficients.vals();
        let ghost x = *receiver_index as nat;
        let mut i: usize = n;
        proof {
            assert(vals.skip(n as int) =~= Seq::<nat>::empty());
        }
        while i > 0
            invariant
                i <= n,
                n == coefficients.0@.len(),
                coefficients.wf(),
                term.wf(),
                term@ == x,
                vals == coefficients.vals(),
                sum.wf(),
                sum@ == poly_eval(vals.skip(i as int), x),
            decreases i,
        {
            i = i - 1;
            let scaled = sum.mul(&term);
            sum = scaled.add(&coefficients.0[i]);
            proof {
                let tail = vals.skip(i + 1);
                assert(vals.skip(i as int).drop_first() =~= tail);
                assert(vals.skip(i as int)[0] == vals[i as int]);
                assert(poly_eval(vals.skip(i as int), x) == add_q(
                    vals[i as int],
                    mul_q(x, poly_eval(tail, x)),
                ));
                crate::field::lemma_mul_q_commutes(poly_eval(tail, x), x);
                crate::field::lemma_add_q_commutes(mul_q(x, poly_eval(tail, x)), vals[i as int]);
            }
        }
        proof {
            assert(vals.skip(0) =~= vals);
        }
        SecretShare {
            sender_index: *sender_index,
            receiver_index: *receiver_index,
            polynomial_evaluation: sum,
        }
    }

    /// Verify this share against a dealer's commitment: accepted exactly
    /// when `value * B` equals the commitment polynomial evaluated at the
    /// receiver's index.
    pub fn verify(&self, commitment: &VerifiableSecretSharingCommitment) -> (r: Result<(), Error>)
        requires
            self.wf(),
            commitment.wf(),
        ensures
            r is Ok <==> point_of(self.polynomial_evaluation@) == point_of(
                poly_eval(commitment.logs(), self.receiver_index as nat),
            ),
            r matches Err(e) ==> e == Error::ShareVerificationError,
    {
        let lhs = GroupElement::base_mul(&self.polynomial_evaluation);
        let term = FieldScalar::from_u32(self.receiver_index);
        let rhs = commitment_eval(commitment, &term);
        if lhs.ct_eq(&rhs) {
            Ok(())
        } else {
            Err(Error::ShareVerificationError)
        }
    }

    /// The 40-byte layout: `sender(4) || receiver(4) || value(32)`.
    pub open spec fn enc(&self) -> Seq<u8> {
        spec_u32_to_le_bytes(self.sender_index) + spec_u32_to_le_bytes(self.receiver_index)
            + self.polynomial_evaluation.bytes@
    }

    /// Serialise this secret share.
    pub fn to_bytes(&self) -> (r: [u8; 40])
        ensures
            r@ == self.enc(),
    {
        let mut res = [0u8; 40];
        let sender = vstd::bytes::u32_to_le_bytes(self.sender_index);
        write_bytes(&mut res, 0, sender.as_slice());
        let receiver = vstd::bytes::u32_to_le_bytes(self.receiver_index);
        write_bytes(&mut res, 4, receiver.as_slice());
        write_bytes(&mut res, 8, self.polynomial_evaluation.bytes.as_slice());
        proof {
            assert(res@ =~= self.enc());
        }
        res
    }

    /// Deserialise a secret share; the value must be a canonical scalar.
    pub fn from_bytes(bytes: &[u8]) -> (r: Result<SecretShare, Error>)
        ensures
            r is Ok <==> bytes@.len() >= 40 && le_bytes_val(bytes@.subrange(8, 40))
                < group_order(),
            r matches Ok(s) ==> {
                &&& s.wf()
                &&& s.sender_index == spec_u32_from_le_bytes(bytes@.subrange(0, 4))
                &&& s.receiver_index == spec_u32_from_le_bytes(bytes@.subrange(4, 8))
                &&& s.polynomial_evaluation.bytes@ == bytes@.subrange(8, 40)
            },
            r matches Err(e) ==> e == Error::SerialisationError,
    {
        if bytes.len() < 40 {
            return Err(Error::SerialisationError);
        }
        let sender_index = read_u32_at(bytes, 0);
        let receiver_index = read_u32_at(bytes, 4);
        let value_bytes = read_bytes32_at(bytes, 8);
        match FieldScalar::from_bytes(&value_bytes) {
            Some(polynomial_evaluation) => Ok(
                SecretShare { sender_index, receiver_index, polynomial_evaluation },
            ),
            None => Err(Error::SerialisationError),
        }
    }

    /// Overwrite the polynomial evaluation with zero.
    pub fn zeroize(&mut self)
        ensures
            final(self).polynomial_evaluation@ == 0,
            final(self).sender_index == old(self).sender_index,
            final(self).receiver_index == old(self).receiver_index,
    {
        zeroize_bytes32(&mut self.polynomial_evaluation.bytes);
        proof {
            crate::scalar::lemma_all_zero_val(self.polynomial_evaluation.bytes@);
        }
    }
}

} // verus!
