//! The scalar field of the prime-order subgroup, as mathematical values.
//!
//! Scalars are residues modulo the subgroup order; this module defines the
//! order, the field operations on `nat` residues, and the byte-level value of
//! a little-endian encoding, together with the lemmas the rest of the crate
//! needs to reason about them.

use vstd::arithmetic::div_mod::*;
use vstd::prelude::*;

verus! {

/// The order of the prime-order subgroup generated by the basepoint.
pub open spec fn group_order() -> nat {
    0x1000000000000000000000000000000014def9dea2f79cd65812631a5cf5d3ednat
}

/// Addition of residues modulo the subgroup order.
pub open spec fn add_q(a: nat, b: nat) -> nat {
    (a + b) % group_order()
}

/// Multiplication of residues modulo the subgroup order.
pub open spec fn mul_q(a: nat, b: nat) -> nat {
    (a * b) % group_order()
}

/// Negation of a residue modulo the subgroup order.
pub open spec fn neg_q(a: nat) -> nat {
    (((group_order() - a % group_order())) % (group_order() as int)) as nat
}

/// Subtraction of residues modulo the subgroup order.
pub open spec fn sub_q(a: nat, b: nat) -> nat {
    add_q(a, neg_q(b))
}

/// The value of a little-endian byte string.
pub open spec fn le_bytes_val(s: Seq<u8>) -> nat
    decreases s.len(),
{
    if s.len() == 0 {
        0
    } else {
        s[0] as nat + 256 * le_bytes_val(s.drop_first())
    }
}

/// The `n`-byte little-endian encoding of `x` (truncated modulo `256^n`).
pub open spec fn nat_to_le_bytes(x: nat, n: nat) -> Seq<u8>
    decreases n,
{
    if n == 0 {
        Seq::empty()
    } else {
        seq![(x % 256) as u8] + nat_to_le_bytes(x / 256, (n - 1) as nat)
    }
}

/// The canonical 32-byte encoding of a scalar residue.
pub open spec fn scalar_enc(x: nat) -> Seq<u8> {
    nat_to_le_bytes(x, 32)
}

/// A byte string is a canonical scalar encoding when it is 32 bytes long and
/// its value lies below the subgroup order.
pub open spec fn scalar_canonical(s: Seq<u8>) -> bool {
    s.len() == 32 && le_bytes_val(s) < group_order()
}

pub proof fn lemma_nat_to_le_bytes_len(x: nat, n: nat)
    ensures
        nat_to_le_bytes(x, n).len() == n,
    decreases n,
{
    if n > 0 {
        lemma_nat_to_le_bytes_len(x / 256, (n - 1) as nat);
    }
}

/// Decoding inverts encoding: the value of the `n`-byte encoding of `x` is
/// `x` itself whenever `x` fits in `n` bytes.
pub proof fn lemma_nat_to_le_bytes_val(x: nat, n: nat)
    requires
        x < vstd::arithmetic::power::pow(256, n),
    ensures
        le_bytes_val(nat_to_le_bytes(x, n)) == x,
    decreases n,
{
    if n == 0 {
        assert(vstd::arithmetic::power::pow(256, 0) == 1) by {
            vstd::arithmetic::power::lemma_pow0(256);
        }
    } else {
        let s = nat_to_le_bytes(x, n);
        let rest = nat_to_le_bytes(x / 256, (n - 1) as nat);
        assert(s == seq![(x % 256) as u8] + rest);
        lemma_nat_to_le_bytes_len(x / 256, (n - 1) as nat);
        assert(s.drop_first() =~= rest);
        assert(x / 256 < vstd::arithmetic::power::pow(256, (n - 1) as nat)) by {
            vstd::arithmetic::power::lemma_pow1(256);
            vstd::arithmetic::power::lemma_pow_adds(256, 1, (n - 1) as nat);
            vstd::arithmetic::power::lemma_pow_positive(256, (n - 1) as nat);
            lemma_multiply_divide_lt(
                x as int,
                256,
                vstd::arithmetic::power::pow(256, (n - 1) as nat) as int,
            );
        }
        lemma_nat_to_le_bytes_val(x / 256, (n - 1) as nat);
        assert(le_bytes_val(s) == x % 256 + 256 * (x / 256));
        lemma_fundamental_div_mod(x as int, 256);
    }
}

/// Encoding inverts decoding: a byte string is the encoding of its own value.
pub proof fn lemma_le_bytes_val_enc(s: Seq<u8>)
    ensures
        nat_to_le_bytes(le_bytes_val(s), s.len()) =~= s,
    decreases s.len(),
{
    if s.len() > 0 {
        let x = le_bytes_val(s);
        let r = le_bytes_val(s.drop_first());
        assert(x == s[0] as nat + 256 * r);
        assert(x % 256 == s[0] as nat && x / 256 == r) by {
            lemma_fundamental_div_mod_converse(x as int, 256, r as int, s[0] as int);
        }
        lemma_le_bytes_val_enc(s.drop_first());
        lemma_nat_to_le_bytes_len(r, (s.len() - 1) as nat);
        assert(nat_to_le_bytes(x, s.len()) =~= seq![(x % 256) as u8] + nat_to_le_bytes(
            x / 256,
            (s.len() - 1) as nat,
        ));
    }
}

/// Two byte strings of equal length and equal value are equal.
pub proof fn lemma_le_bytes_val_injective(s1: Seq<u8>, s2: Seq<u8>)
    requires
        s1.len() == s2.len(),
        le_bytes_val(s1) == le_bytes_val(s2),
    ensures
        s1 =~= s2,
{
    lemma_le_bytes_val_enc(s1);
    lemma_le_bytes_val_enc(s2);
}

/// A canonical scalar encoding is the canonical encoding of its value.
pub proof fn lemma_scalar_enc_of_canonical(s: Seq<u8>)
    requires
        s.len() == 32,
    ensures
        scalar_enc(le_bytes_val(s)) =~= s,
{
    lemma_le_bytes_val_enc(s);
}

pub proof fn lemma_add_q_commutes(a: nat, b: nat)
    ensures
        add_q(a, b) == add_q(b, a),
{
}

pub proof fn lemma_mul_q_commutes(a: nat, b: nat)
    ensures
        mul_q(a, b) == mul_q(b, a),
{
    vstd::arithmetic::mul::lemma_mul_is_commutative(a as int, b as int);
}

/// `add_q` ignores a reduction of either argument.
pub proof fn lemma_add_q_noop(a: nat, b: nat)
    ensures
        add_q(a % group_order(), b) == add_q(a, b),
        add_q(a, b % group_order()) == add_q(a, b),
        add_q(a, b) < group_order(),
{
    let q = group_order() as int;
    lemma_add_mod_noop(a as int, b as int, q);
    lemma_mod_twice(a as int, q);
    lemma_mod_twice(b as int, q);
    lemma_mod_bound((a + b) as int, q);
}

/// `mul_q` ignores a reduction of either argument.
pub proof fn lemma_mul_q_noop(a: nat, b: nat)
    ensures
        mul_q(a % group_order(), b) == mul_q(a, b),
        mul_q(a, b % group_order()) == mul_q(a, b),
        mul_q(a, b) < group_order(),
{
    let q = group_order() as int;
    lemma_mul_mod_noop_general(a as int, b as int, q);
    lemma_mod_twice((a * b) as int, q);
    lemma_mod_bound((a * b) as int, q);
}

/// Adding `s * x` and then `(-s) * x` is the identity on residues: the
/// cancellation behind Schnorr-style verification equations.
pub proof fn lemma_schnorr_cancel(k: nat, s: nat, x: nat)
    requires
        k < group_order(),
    ensures
        add_q(add_q(k, mul_q(s, x)), mul_q(neg_q(s), x)) == k,
{
    let q = group_order() as int;
    let a = mul_q(s, x);
    let b = mul_q(neg_q(s), x);
    let sq = s % group_order();
    let nq = neg_q(s);
    lemma_mod_bound(s as int, q);
    assert((sq + nq) as int % q == 0) by {
        if sq == 0 {
            lemma_mod_self_0(q);
            lemma_small_mod(0, group_order());
        } else {
            lemma_small_mod((q - sq) as nat, group_order());
            lemma_mod_self_0(q);
        }
    }
    assert(add_q(add_q(k, a), b) == ((k + a + b) as int % q) as nat) by {
        lemma_add_mod_noop((k + a) as int, b as int, q);
        lemma_mod_twice(b as int, q);
        lemma_mod_twice((k + a) as int, q);
        lemma_add_mod_noop(k as int, a as int, q);
        lemma_mod_twice(a as int, q);
        lemma_small_mod(k, group_order());
    }
    assert((a + b) as int % q == 0) by {
        lemma_mul_q_noop(s, x);
        assert(a == mul_q(sq, x));
        lemma_add_mod_noop((sq * x) as int, (nq * x) as int, q);
        assert((sq * x + nq * x) == (sq + nq) * x) by {
            vstd::arithmetic::mul::lemma_mul_is_distributive_add_other_way(
                x as int,
                sq as int,
                nq as int,
            );
        }
        lemma_mul_mod_noop_left((sq + nq) as int, x as int, q);
        assert(((sq + nq) as int % q) * x == 0);
        lemma_mod_self_0(q);
        assert((0int) % q == 0) by {
            lemma_small_mod(0, group_order());
        }
    }
    assert((k + a + b) as int % q == k) by {
        lemma_add_mod_noop(k as int, (a + b) as int, q);
        lemma_small_mod(k, group_order());
        lemma_mod_twice((a + b) as int, q);
    }
}

/// Scalar multiplication distributes over the response sum: the algebra
/// behind the second Chaum-Pedersen verification equation.
pub proof fn lemma_mul_distributes_q(r: nat, h: nat, sk: nat, p: nat)
    ensures
        add_q(mul_q(r, p), mul_q(h, mul_q(sk, p))) == mul_q(add_q(r, mul_q(h, sk)), p),
{
    let q = group_order() as int;
    assert(mul_q(h, mul_q(sk, p)) == ((h * (sk * p)) as int % q) as nat) by {
        lemma_mul_mod_noop_right(h as int, (sk * p) as int, q);
    }
    assert(add_q(mul_q(r, p), ((h * (sk * p)) as int % q) as nat) == ((r * p + h * (sk * p)) as int
        % q) as nat) by {
        lemma_add_mod_noop((r * p) as int, (h * (sk * p)) as int, q);
    }
    assert(add_q(r, mul_q(h, sk)) == ((r + h * sk) as int % q) as nat) by {
        lemma_add_mod_noop_right(r as int, (h * sk) as int, q);
    }
    assert(mul_q(((r + h * sk) as int % q) as nat, p) == (((r + h * sk) * p) as int % q) as nat)
        by {
        lemma_mul_mod_noop_left((r + h * sk) as int, p as int, q);
    }
    assert((r + h * sk) * p == r * p + (h * sk) * p) by {
        vstd::arithmetic::mul::lemma_mul_is_distributive_add_other_way(
            p as int,
            r as int,
            (h * sk) as int,
        );
    }
    assert(h * (sk * p) == (h * sk) * p) by {
        vstd::arithmetic::mul::lemma_mul_is_associative(h as int, sk as int, p as int);
    }
}

/// The inverse of a residue, when one exists.
pub open spec fn inv_q(a: nat) -> nat {
    choose|x: nat| x < group_order() && mul_q(a, x) == 1
}

/// Inverses are unique: any witness to `mul_q(a, x) == 1` equals `inv_q(a)`.
pub proof fn lemma_inv_q_unique(a: nat, x: nat)
    requires
        x < group_order(),
        mul_q(a, x) == 1,
    ensures
        inv_q(a) == x,
{
    let q = group_order() as int;
    let y = inv_q(a);
    assert(y < group_order() && mul_q(a, y) == 1);
    // x == x * (a * y) == (x * a) * y == 1 * y == y, all modulo q.
    assert(mul_q(x, mul_q(a, y)) == x % group_order()) by {
        lemma_small_mod(x, group_order());
    }
    assert(mul_q(x, mul_q(a, y)) == mul_q(mul_q(x, a), y)) by {
        lemma_mul_q_noop(x, a * y);
        lemma_mul_q_noop(x * a, y);
        vstd::arithmetic::mul::lemma_mul_is_associative(x as int, a as int, y as int);
    }
    assert(mul_q(mul_q(x, a), y) == mul_q(1, y)) by {
        lemma_mul_q_commutes(x, a);
        lemma_mul_q_noop(a * x, y);
        lemma_mul_q_noop(1, y);
    }
    assert(mul_q(1, y) == y) by {
        vstd::arithmetic::mul::lemma_mul_basics(y as int);
        lemma_small_mod(y, group_order());
    }
    lemma_small_mod(x, group_order());
}

} // verus!
