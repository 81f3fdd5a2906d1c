//! Lagrange coefficients at zero, used to interpolate the group secret from
//! shares.
//!
//! For a participant `i` in a set `S` of indices, the coefficient is
//! `Π_{j ∈ S, j ≠ i} j / (j - i)` modulo the subgroup order.

use crate::error::Error;
use crate::field::{group_order, inv_q, mul_q, sub_q};
use crate::scalar::FieldScalar;
use vstd::prelude::*;

verus! {

/// The numerator `Π_{j ∈ s, j ≠ i} j` of the Lagrange coefficient at zero.
pub open spec fn lagrange_num(i: nat, s: Seq<nat>) -> nat
    decreases s.len(),
{
    if s.len() == 0 {
        1
    } else if s.last() == i {
        lagrange_num(i, s.drop_last())
    } else {
        mul_q(lagrange_num(i, s.drop_last()), s.last())
    }
}

/// The denominator `Π_{j ∈ s, j ≠ i} (j - i)` of the Lagrange coefficient
/// at zero.
pub open spec fn lagrange_den(i: nat, s: Seq<nat>) -> nat
    decreases s.len(),
{
    if s.len() == 0 {
        1
    } else if s.last() == i {
        lagrange_den(i, s.drop_last())
    } else {
        mul_q(lagrange_den(i, s.drop_last()), sub_q(s.last(), i))
    }
}

/// The Lagrange coefficient `λ_{i,s}(0)`, defined when the denominator is
/// invertible.
pub open spec fn lagrange_at_zero(i: nat, s: Seq<nat>) -> nat {
    mul_q(lagrange_num(i, s), inv_q(lagrange_den(i, s)))
}

/// The index values of a slice of participant indices.
pub open spec fn index_vals(s: Seq<u32>) -> Seq<nat> {
    s.map(|k: int, v: u32| v as nat)
}

/// Compute the Lagrange coefficient at zero of `participant_index` within
/// the set `all_indices`.  Fails exactly when the denominator product is
/// zero, which with distinct indices below the subgroup order never
/// happens.
pub fn calculate_lagrange_coefficients(participant_index: &u32, all_indices: &[u32]) -> (r: Result<
    FieldScalar,
    Error,
>)
    ensures
        r is Ok <==> lagrange_den(*participant_index as nat, index_vals(all_indices@)) != 0,
        r matches Ok(c) ==> c.wf() && c@ == lagrange_at_zero(
            *participant_index as nat,
            index_vals(all_indices@),
        ),
        r matches Err(e) ==> e matches Error::Custom(_),
{
    let my = FieldScalar::from_u32(*participant_index);
    let mut num = FieldScalar::one();
    let mut den = FieldScalar::one();
    let n: usize = all_indices.len();
    let ghost vals = index_vals(all_indices@);
    let ghost i_nat = *participant_index as nat;
    let mut k: usize = 0;
    proof {
        assert(vals.take(0) =~= Seq::<nat>::empty());
    }
    while k < n
        invariant
            k <= n,
            n == all_indices@.len(),
            vals == index_vals(all_indices@),
            i_nat == *participant_index as nat,
            my.wf(),
            my@ == i_nat,
            num.wf(),
            den.wf(),
            num@ == lagrange_num(i_nat, vals.take(k as int)),
            den@ == lagrange_den(i_nat, vals.take(k as int)),
        decreases n - k,
    {
        let idx = all_indices[k];
        proof {
            assert(vals.take(k + 1).drop_last() =~= vals.take(k as int));
            assert(vals.take(k + 1).last() == idx as nat);
        }
        if idx != *participant_index {
            let sc = FieldScalar::from_u32(idx);
            num = num.mul(&sc);
            den = den.mul(&sc.sub(&my));
        }
        k += 1;
    }
    proof {
        assert(vals.take(n as int) =~= vals);
    }
    if den.is_zero() {
        Err(Error::Custom("could not compute the Lagrange coefficient".to_owned()))
    } else {
        Ok(num.mul(&den.invert()))
    }
}

} // verus!
