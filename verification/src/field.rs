//! Arithmetic in the prime field `F_p` used for Shamir secret sharing.
//!
//! The deployment fixes the public prime `p = 685373784908497`, which is
//! below `2^50`: a field element fits a `u64`, a sum of two elements fits a
//! `u64`, and a product fits a `u128`.
use vstd::prelude::*;
use vstd::calc;
use vstd::arithmetic::power::{pow, lemma_pow_adds, lemma_pow_multiplies, lemma_pow_mod_noop};
use vstd::arithmetic::div_mod::{lemma_mul_mod_noop_general};

verus! {

/// The public prime modulus of the deployment's Shamir field.
pub const FIELD_PRIME: u64 = 685373784908497;

/// A value is a field element when it is reduced modulo the prime.
pub open spec fn is_elem(x: u64) -> bool {
    x < FIELD_PRIME
}

/// Sum in the field.
pub fn add_mod(a: u64, b: u64) -> (r: u64)
    requires
        is_elem(a),
        is_elem(b),
    ensures
        r == (a + b) % (FIELD_PRIME as int),
        is_elem(r),
{
    (a + b) % FIELD_PRIME
}

/// Difference in the field.
pub fn sub_mod(a: u64, b: u64) -> (r: u64)
    requires
        is_elem(a),
        is_elem(b),
    ensures
        r == (a + FIELD_PRIME - b) % (FIELD_PRIME as int),
        is_elem(r),
{
    (a + FIELD_PRIME - b) % FIELD_PRIME
}

/// Product in the field, through a `u128` intermediate.
pub fn mul_mod(a: u64, b: u64) -> (r: u64)
    requires
        is_elem(a),
        is_elem(b),
    ensures
        r == (a * b) % (FIELD_PRIME as int),
        is_elem(r),
{
    proof {
        assert((a as int) * (b as int) < (FIELD_PRIME as int) * (FIELD_PRIME as int))
            by (nonlinear_arith)
            requires a < FIELD_PRIME && b < FIELD_PRIME;
    }
    let wide: u128 = (a as u128) * (b as u128);
    let rem: u128 = wide % (FIELD_PRIME as u128);
    rem as u64
}

/// `a^e` reduced modulo the prime.
pub open spec fn pow_mod_spec(a: u64, e: u64) -> int {
    pow(a as int, e as nat) % (FIELD_PRIME as int)
}

/// Modular exponentiation by squaring.
pub fn pow_mod(a: u64, e: u64) -> (r: u64)
    requires
        is_elem(a),
    ensures
        r == pow_mod_spec(a, e),
        is_elem(r),
{
    let ghost p = FIELD_PRIME as int;
    let mut result: u64 = 1;
    let mut base: u64 = a;
    let mut exp: u64 = e;
    proof {
        lemma_pow_mod_noop(a as int, e as nat, p);
    }
    while exp > 0
        invariant
            is_elem(result),
            is_elem(base),
            pow_mod_spec(a, e) == (result * pow(base as int, exp as nat)) % p,
        decreases exp,
    {
        let ghost old_result = result as int;
        let ghost old_base = base as int;
        let ghost old_exp = exp as nat;
        let ghost half = (exp / 2) as nat;
        let ghost bit = (exp % 2) as nat;
        if exp % 2 == 1 {
            result = mul_mod(result, base);
        }
        base = mul_mod(base, base);
        exp = exp / 2;
        proof {
            lemma_pow_step(old_result, old_base, old_exp, result as int, base as int, p);
        }
    }
    proof {
        vstd::arithmetic::power::lemma_pow0(base as int);
        assert(pow_mod_spec(a, e) == (result as int) % p);
    }
    result
}

/// One square-and-multiply step keeps `result * base^exp` fixed modulo `p`.
proof fn lemma_pow_step(r0: int, b0: int, e0: nat, r1: int, b1: int, p: int)
    requires
        p == FIELD_PRIME as int,
        e0 > 0,
        0 <= r0 < p,
        0 <= b0 < p,
        r1 == if e0 % 2 == 1 { (r0 * b0) % p } else { r0 },
        b1 == (b0 * b0) % p,
    ensures
        (r1 * pow(b1, (e0 / 2) as nat)) % p == (r0 * pow(b0, e0)) % p,
{
    let h = (e0 / 2) as nat;
    let bit = (e0 % 2) as nat;
    assert(e0 == 2 * h + bit);
    // pow(b0, e0) == pow(b0, bit) * pow(b0*b0, h)
    lemma_pow_adds(b0, bit, (2 * h) as nat);
    lemma_pow_multiplies(b0, 2, h);
    vstd::arithmetic::power::lemma_pow1(b0);
    lemma_pow_adds(b0, 1, 1);
    assert(pow(b0, 2) == b0 * b0);
    assert(pow(b0, e0) == pow(b0, bit) * pow(b0 * b0, h));
    // replace the squared base by its reduced form under the modulus
    lemma_pow_mod_noop(b0 * b0, h, p);
    assert(pow(b1, h) % p == pow(b0 * b0, h) % p);
    if bit == 1 {
        vstd::arithmetic::power::lemma_pow1(b0);
        assert(pow(b0, e0) == b0 * pow(b0 * b0, h));
        calc! {
            (==)
            (r1 * pow(b1, h)) % p; {
                lemma_mul_mod_noop_general(r1, pow(b1, h), p);
            }
            ((r1 % p) * (pow(b1, h) % p)) % p; {}
            ((((r0 * b0) % p) % p) * (pow(b0 * b0, h) % p)) % p; {
                lemma_mul_mod_noop_general(r0 * b0, pow(b0 * b0, h), p);
            }
            ((r0 * b0) * pow(b0 * b0, h)) % p; {
                vstd::arithmetic::mul::lemma_mul_is_associative(r0, b0, pow(b0 * b0, h));
            }
            (r0 * (b0 * pow(b0 * b0, h))) % p; {}
            (r0 * pow(b0, e0)) % p;
        }
    } else {
        vstd::arithmetic::power::lemma_pow0(b0);
        assert(pow(b0, e0) == pow(b0 * b0, h));
        calc! {
            (==)
            (r1 * pow(b1, h)) % p; {
                lemma_mul_mod_noop_general(r1, pow(b1, h), p);
            }
            ((r1 % p) * (pow(b1, h) % p)) % p; {}
            ((r0 % p) * (pow(b0 * b0, h) % p)) % p; {
                lemma_mul_mod_noop_general(r0, pow(b0 * b0, h), p);
            }
            (r0 * pow(b0 * b0, h)) % p; {}
            (r0 * pow(b0, e0)) % p;
        }
    }
}

/// Multiplicative inverse by Fermat's little theorem: `a^(p-2)`.
pub fn inv_mod(a: u64) -> (r: u64)
    requires
        is_elem(a),
    ensures
        r == pow_mod_spec(a, (FIELD_PRIME - 2) as u64),
        is_elem(r),
{
    pow_mod(a, FIELD_PRIME - 2)
}

/// Fixed eight-byte big-endian encoding of a `u64`; both the dealer and the
/// verifier of a commitment use it, so the two sides hash identical bytes.
pub open spec fn be8_spec(x: u64) -> Seq<u8> {
    seq![
        (x >> 56) as u8,
        (x >> 48) as u8,
        (x >> 40) as u8,
        (x >> 32) as u8,
        (x >> 24) as u8,
        (x >> 16) as u8,
        (x >> 8) as u8,
        x as u8,
    ]
}

/// Eight-byte big-endian encoding of a `u64`.
pub fn be8(x: u64) -> (r: Vec<u8>)
    ensures
        r@ == be8_spec(x),
{
    let mut v: Vec<u8> = Vec::new();
    v.push((x >> 56) as u8);
    v.push((x >> 48) as u8);
    v.push((x >> 40) as u8);
    v.push((x >> 32) as u8);
    v.push((x >> 24) as u8);
    v.push((x >> 16) as u8);
    v.push((x >> 8) as u8);
    v.push(x as u8);
    proof {
        assert(v@ =~= be8_spec(x));
    }
    v
}

} // verus!
