//! Arithmetic in the 64-bit scalar field used by every transform and by the
//! Merkle digest builder. Element buffers hold raw `u64` words; operations
//! reduce modulo `MODULUS`.

use vstd::prelude::*;
use vstd::arithmetic::div_mod::{
    lemma_mul_mod_noop_general, lemma_small_mod,
};
use vstd::arithmetic::mul::{lemma_mul_is_associative, lemma_mul_is_commutative};

verus! {

/// The field modulus: 2^64 - 2^32 + 1.
pub const MODULUS: u64 = 0xffff_ffff_0000_0001;

/// A generator of the field's multiplicative group, from which every
/// root of unity used by the transforms is derived.
pub const GROUP_GENERATOR: u64 = 7;

/// Field addition of two words, as a mathematical value.
pub open spec fn add_f(a: u64, b: u64) -> u64 {
    (((a as int) + (b as int)) % (MODULUS as int)) as u64
}

/// Field multiplication of two words, as a mathematical value.
pub open spec fn mul_f(a: u64, b: u64) -> u64 {
    (((a as int) * (b as int)) % (MODULUS as int)) as u64
}

/// Field exponentiation by repeated multiplication.
pub open spec fn pow_f(base: u64, e: nat) -> u64
    decreases e,
{
    if e == 0 {
        1u64
    } else {
        mul_f(base, pow_f(base, (e - 1) as nat))
    }
}

/// Field addition; the result is always fully reduced.
pub fn add_mod(a: u64, b: u64) -> (r: u64)
    ensures
        r == add_f(a, b),
        r < MODULUS,
{
    let s: u128 = a as u128 + b as u128;
    let m: u128 = MODULUS as u128;
    let r: u128 = s % m;
    assert(r < m);
    r as u64
}

/// Field multiplication; the result is always fully reduced.
pub fn mul_mod(a: u64, b: u64) -> (r: u64)
    ensures
        r == mul_f(a, b),
        r < MODULUS,
{
    proof {
        assert((a as int) * (b as int) <= (u64::MAX as int) * (u64::MAX as int))
            by (nonlinear_arith)
            requires a <= u64::MAX && b <= u64::MAX;
    }
    let p: u128 = (a as u128) * (b as u128);
    let m: u128 = MODULUS as u128;
    let r: u128 = p % m;
    assert(r < m);
    r as u64
}

/// Multiplication by a fully reduced value is the identity when the
/// other factor is one.
pub proof fn lemma_mul_f_one(a: u64)
    requires
        a < MODULUS,
    ensures
        mul_f(a, 1) == a,
{
    assert((a as int) * 1 == a as int);
    lemma_small_mod(a as nat, MODULUS as nat);
}

/// Field multiplication is commutative.
pub proof fn lemma_mul_f_comm(a: u64, b: u64)
    ensures
        mul_f(a, b) == mul_f(b, a),
{
    lemma_mul_is_commutative(a as int, b as int);
}

/// Field multiplication is associative.
pub proof fn lemma_mul_f_assoc(a: u64, b: u64, c: u64)
    ensures
        mul_f(mul_f(a, b), c) == mul_f(a, mul_f(b, c)),
{
    let m = MODULUS as int;
    let ai = a as int;
    let bi = b as int;
    let ci = c as int;
    lemma_mul_mod_noop_general(ai * bi, ci, m);
    assert(mul_f(mul_f(a, b), c) == (ai * bi * ci) % m);
    lemma_mul_mod_noop_general(ai, bi * ci, m);
    lemma_mul_is_associative(ai, bi, ci);
    assert(mul_f(a, mul_f(b, c)) == (ai * (bi * ci)) % m);
}

/// Exponents add: `base^(e1 + e2) == base^e1 * base^e2` in the field.
pub proof fn lemma_pow_f_add(base: u64, e1: nat, e2: nat)
    ensures
        pow_f(base, e1 + e2) == mul_f(pow_f(base, e1), pow_f(base, e2)),
    decreases e1,
{
    if e1 == 0 {
        assert(pow_f(base, 0) == 1u64);
        lemma_mul_f_comm(1u64, pow_f(base, e2));
        if e2 == 0 {
            lemma_small_mod(1nat, MODULUS as nat);
        } else {
            lemma_mul_f_one(pow_f(base, e2));
        }
    } else {
        lemma_pow_f_add(base, (e1 - 1) as nat, e2);
        assert(pow_f(base, e1 + e2) == mul_f(base, pow_f(base, (e1 + e2 - 1) as nat)));
        lemma_mul_f_assoc(base, pow_f(base, (e1 - 1) as nat), pow_f(base, e2));
    }
}

/// Halving the exponent against a squared base: `base^(2q) == (base^2)^q`.
pub proof fn lemma_pow_f_square(base: u64, q: nat)
    ensures
        pow_f(base, 2 * q) == pow_f(mul_f(base, base), q),
    decreases q,
{
    if q == 0 {
    } else {
        lemma_pow_f_square(base, (q - 1) as nat);
        lemma_pow_f_add(base, 2nat, (2 * q - 2) as nat);
        assert(pow_f(base, 0nat) == 1u64);
        assert(pow_f(base, 1nat) == mul_f(base, pow_f(base, 0nat)));
        assert(pow_f(base, 2nat) == mul_f(base, pow_f(base, 1nat)));
        lemma_mul_mod_noop_general(base as int, base as int, MODULUS as int);
        assert(mul_f(base, mul_f(base, 1u64)) == mul_f(base, base)) by {
            lemma_mul_f_assoc(base, base, 1u64);
            if mul_f(base, base) < MODULUS {
                lemma_mul_f_one(mul_f(base, base));
            }
            assert(mul_f(base, base) < MODULUS);
        };
        assert(pow_f(mul_f(base, base), q)
            == mul_f(mul_f(base, base), pow_f(mul_f(base, base), (q - 1) as nat)));
    }
}

/// Every power with a positive exponent is fully reduced.
pub proof fn lemma_pow_f_reduced(base: u64, e: nat)
    ensures
        e > 0 ==> pow_f(base, e) < MODULUS,
        pow_f(base, e) <= MODULUS,
{
    if e > 0 {
        assert(pow_f(base, e) == mul_f(base, pow_f(base, (e - 1) as nat)));
    }
}

/// Field exponentiation by binary square-and-multiply.
pub fn pow_mod(base: u64, e: u64) -> (r: u64)
    ensures
        r == pow_f(base, e as nat),
        r < MODULUS,
{
    let mut acc: u64 = 1;
    let mut b: u64 = base;
    let mut exp: u64 = e;
    proof {
        lemma_pow_f_reduced(base, e as nat);
        if pow_f(base, e as nat) < MODULUS {
            lemma_mul_f_one(pow_f(base, e as nat));
        } else {
            lemma_small_mod(1nat, MODULUS as nat);
        }
        lemma_mul_f_comm(1u64, pow_f(base, e as nat));
    }
    while exp > 0
        invariant
            acc < MODULUS,
            mul_f(acc, pow_f(b, exp as nat)) == pow_f(base, e as nat),
        decreases exp,
    {
        let ghost exp0: u64 = exp;
        let ghost b0: u64 = b;
        let ghost acc0: u64 = acc;
        if exp % 2 == 1 {
            acc = mul_mod(acc, b);
        }
        b = mul_mod(b, b);
        exp = exp / 2;
        proof {
            let q = exp as nat;
            if exp0 % 2 == 1 {
                assert(exp0 as nat == 2 * q + 1);
                assert(pow_f(b0, (2 * q + 1) as nat) == mul_f(b0, pow_f(b0, 2 * q)));
                lemma_pow_f_square(b0, q);
                lemma_mul_f_assoc(acc0, b0, pow_f(mul_f(b0, b0), q));
                assert(mul_f(acc, pow_f(b, exp as nat))
                    == mul_f(acc0, pow_f(b0, exp0 as nat)));
            } else {
                assert(exp0 as nat == 2 * q);
                lemma_pow_f_square(b0, q);
            }
        }
    }
    proof {
        assert(pow_f(b, 0) == 1u64);
        lemma_mul_f_one(acc);
    }
    acc
}

} // verus!
