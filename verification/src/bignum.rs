//! Arbitrary-precision unsigned integers from the `num_bigint` crate.
//! The type is declared for the verifier, its value is named by
//! `big_value`, and every call the library makes goes through a trusted
//! wrapper whose contract states what the call returns in terms of that
//! value.

use vstd::prelude::*;

use num_bigint::BigUint;

use crate::bit_vec::le_bytes_value;

verus! {

#[verifier::external_type_specification]
#[verifier::external_body]
pub struct ExBigUint(BigUint);

/// The unsigned value a `BigUint` holds.
pub uninterp spec fn big_value(v: BigUint) -> nat;

/// `b` to the power `e`.
pub open spec fn pow_nat(b: nat, e: nat) -> nat
    decreases e,
{
    if e == 0 {
        1
    } else {
        b * pow_nat(b, (e - 1) as nat)
    }
}

/// The number of binary digits needed to write `n`; 0 for 0.
pub open spec fn bit_len(n: nat) -> nat
    decreases n,
{
    if n == 0 {
        0
    } else {
        1 + bit_len(n / 2)
    }
}

/// The sample threshold: how many entropy bits make one password drawn
/// from `base` characters with `len` positions, namely the bit length of
/// `base ^ len`.
pub open spec fn threshold_spec(base: nat, len: nat) -> nat {
    bit_len(pow_nat(base, len))
}

/// A positive base keeps every power positive.
pub proof fn lemma_pow_nat_pos(b: nat, e: nat)
    requires
        b >= 1,
    ensures
        pow_nat(b, e) >= 1,
    decreases e,
{
    if e > 0 {
        lemma_pow_nat_pos(b, (e - 1) as nat);
        assert(b * pow_nat(b, (e - 1) as nat) >= 1) by (nonlinear_arith)
            requires
                b >= 1 && pow_nat(b, (e - 1) as nat) >= 1,
        ;
    }
}

/// A character set with at least one character needs at least one bit per
/// password.
pub proof fn lemma_threshold_pos(base: nat, len: nat)
    requires
        base >= 1,
    ensures
        threshold_spec(base, len) >= 1,
{
    lemma_pow_nat_pos(base, len);
}

/// Relies on `BigUint::from::<usize>`: the integer holding exactly `n`.
#[verifier::external_body]
pub fn big_from_usize(n: usize) -> (r: BigUint)
    ensures
        big_value(r) == n as nat,
{
    BigUint::from(n)
}

/// Relies on `BigUint::pow`: exact exponentiation, never overflowing or
/// losing precision.
#[verifier::external_body]
pub fn big_pow(base: &BigUint, exponent: u32) -> (r: BigUint)
    ensures
        big_value(r) == pow_nat(big_value(*base), exponent as nat),
{
    base.pow(exponent)
}

/// Relies on `BigUint::bits`: the fewest bits necessary to express the
/// value, 0 for 0.
#[verifier::external_body]
pub fn big_bits(v: &BigUint) -> (r: u64)
    ensures
        r as nat == bit_len(big_value(*v)),
{
    v.bits()
}

/// Relies on `BigUint::from_bytes_le`: the value of the bytes read as a
/// little-endian unsigned integer.
#[verifier::external_body]
pub fn big_from_bytes_le(bytes: &Vec<u8>) -> (r: BigUint)
    ensures
        big_value(r) == le_bytes_value(bytes@),
{
    BigUint::from_bytes_le(bytes.as_slice())
}

/// Relies on `num_integer::Integer::div_mod_floor` for `BigUint`:
/// simultaneous floored division and remainder; floored and euclidean
/// agree on unsigned values.
#[verifier::external_body]
pub fn big_div_mod(n: &BigUint, d: &BigUint) -> (r: (BigUint, BigUint))
    requires
        big_value(*d) >= 1,
    ensures
        big_value(r.0) == big_value(*n) / big_value(*d),
        big_value(r.1) == big_value(*n) % big_value(*d),
{
    num_integer::Integer::div_mod_floor(n, d)
}

/// Relies on `num_traits::ToPrimitive::to_usize` for `BigUint`: the value
/// when it fits in a `usize`, `None` when it does not.
#[verifier::external_body]
pub fn big_to_usize(v: &BigUint) -> (r: Option<usize>)
    ensures
        match r {
            Some(u) => u as nat == big_value(*v),
            None => big_value(*v) > usize::MAX,
        },
{
    num_traits::ToPrimitive::to_usize(v)
}

} // verus!
