//! Trusted boundary around `rug::Integer`.
//!
//! The arbitrary-precision arithmetic itself is GMP's, reached through
//! `rug`. Each operation the crate relies on is wrapped here in one small
//! function whose contract states, over the uninterpreted view `int_of`,
//! exactly what rug's documentation promises of that operation.

use vstd::prelude::*;
use rug::Complete;

verus! {

use crate::nums::{gcd_int, trunc_div, trunc_rem, bit_len};

#[verifier::external_type_specification]
#[verifier::external_body]
pub struct ExInteger(rug::Integer);

/// The mathematical value that a `rug::Integer` holds.
pub uninterp spec fn int_of(x: rug::Integer) -> int;

/// Relies on `rug::Integer::from`: an integer holding the value of `x`.
#[verifier::external_body]
pub fn int_from_i128(x: i128) -> (r: rug::Integer)
    ensures
        int_of(r) == x as int,
{
    rug::Integer::from(x)
}

/// Relies on `rug::Integer::clone`: the copy holds the same value.
#[verifier::external_body]
pub fn int_clone(a: &rug::Integer) -> (r: rug::Integer)
    ensures
        int_of(r) == int_of(*a),
{
    a.clone()
}

/// Relies on `rug`'s `Add` of two integer references.
#[verifier::external_body]
pub fn int_add(a: &rug::Integer, b: &rug::Integer) -> (r: rug::Integer)
    ensures
        int_of(r) == int_of(*a) + int_of(*b),
{
    rug::Integer::from(a + b)
}

/// Relies on `rug`'s `Sub` of two integer references.
#[verifier::external_body]
pub fn int_sub(a: &rug::Integer, b: &rug::Integer) -> (r: rug::Integer)
    ensures
        int_of(r) == int_of(*a) - int_of(*b),
{
    rug::Integer::from(a - b)
}

/// Relies on `rug`'s `Mul` of two integer references.
#[verifier::external_body]
pub fn int_mul(a: &rug::Integer, b: &rug::Integer) -> (r: rug::Integer)
    ensures
        int_of(r) == int_of(*a) * int_of(*b),
{
    rug::Integer::from(a * b)
}

/// Relies on `rug::Integer::div_exact_ref`: exact division, defined only
/// when the divisor divides the dividend.
#[verifier::external_body]
pub fn int_div_exact(a: &rug::Integer, b: &rug::Integer) -> (r: rug::Integer)
    requires
        int_of(*b) != 0,
        trunc_rem(int_of(*a), int_of(*b)) == 0,
    ensures
        int_of(r) * int_of(*b) == int_of(*a),
{
    rug::Integer::from(a.div_exact_ref(b))
}

/// Relies on `rug::Integer::div_rem_ref`: quotient rounded towards zero,
/// remainder with the sign of the dividend. Panics on a zero divisor,
/// which the precondition rules out.
#[verifier::external_body]
pub fn int_div_rem(a: &rug::Integer, b: &rug::Integer) -> (r: (rug::Integer, rug::Integer))
    requires
        int_of(*b) != 0,
    ensures
        int_of(r.0) == trunc_div(int_of(*a), int_of(*b)),
        int_of(r.1) == trunc_rem(int_of(*a), int_of(*b)),
{
    let (q, m) = a.div_rem_ref(b).complete();
    (q, m)
}

/// Relies on `rug::Integer::gcd_ref`: the non-negative greatest common
/// divisor, zero only when both inputs are zero.
#[verifier::external_body]
pub fn int_gcd(a: &rug::Integer, b: &rug::Integer) -> (r: rug::Integer)
    ensures
        int_of(r) == gcd_int(int_of(*a), int_of(*b)),
{
    rug::Integer::from(a.gcd_ref(b))
}

/// Relies on `rug`'s `Shl`: shifting left by one doubles the value.
#[verifier::external_body]
pub fn int_double(a: &rug::Integer) -> (r: rug::Integer)
    ensures
        int_of(r) == 2 * int_of(*a),
{
    rug::Integer::from(a << 1u32)
}

/// Relies on `rug`'s `Shr`, an arithmetic shift: exact halving of an even
/// value.
#[verifier::external_body]
pub fn int_half_even(a: &rug::Integer) -> (r: rug::Integer)
    requires
        int_of(*a) % 2 == 0,
    ensures
        2 * int_of(r) == int_of(*a),
{
    rug::Integer::from(a >> 1u32)
}

/// Relies on `rug::Integer::is_even`.
#[verifier::external_body]
pub fn int_is_even(a: &rug::Integer) -> (r: bool)
    ensures
        r == (int_of(*a) % 2 == 0),
{
    a.is_even()
}

/// Relies on `rug`'s `Ord` between integers.
#[verifier::external_body]
pub fn int_le(a: &rug::Integer, b: &rug::Integer) -> (r: bool)
    ensures
        r == (int_of(*a) <= int_of(*b)),
{
    *a <= *b
}

/// Relies on `rug`'s `PartialEq` between integers.
#[verifier::external_body]
pub fn int_eq(a: &rug::Integer, b: &rug::Integer) -> (r: bool)
    ensures
        r == (int_of(*a) == int_of(*b)),
{
    *a == *b
}

/// Relies on `rug`'s `PartialOrd` between an integer and an `i128`.
#[verifier::external_body]
pub fn int_ge_i128(a: &rug::Integer, b: i128) -> (r: bool)
    ensures
        r == (int_of(*a) >= b as int),
{
    *a >= b
}

/// Relies on `rug`'s `PartialEq` between an integer and an `i128`.
#[verifier::external_body]
pub fn int_eq_i128(a: &rug::Integer, b: i128) -> (r: bool)
    ensures
        r == (int_of(*a) == b as int),
{
    *a == b
}

/// Relies on `rug::Integer::to_u128`: the value if it fits, else nothing.
#[verifier::external_body]
pub fn int_to_u128(a: &rug::Integer) -> (r: Option<u128>)
    ensures
        match r {
            Some(v) => int_of(*a) == v as int,
            None => int_of(*a) < 0 || int_of(*a) > u128::MAX as int,
        },
{
    a.to_u128()
}

/// Relies on `rug::Integer::abs_ref`.
#[verifier::external_body]
pub fn int_abs(a: &rug::Integer) -> (r: rug::Integer)
    ensures
        int_of(r) == crate::nums::abs_i(int_of(*a)),
{
    rug::Integer::from(a.abs_ref())
}

/// Relies on `rug::Integer::significant_bits`: the bit length of the
/// absolute value, zero for zero. rug counts in `usize` and converts,
/// panicking on a value of more than `u32::MAX` bits; the precondition
/// keeps such values out.
#[verifier::external_body]
pub fn int_signif_bits(a: &rug::Integer) -> (r: u32)
    requires
        bit_len(int_of(*a)) <= u32::MAX as nat,
    ensures
        r as nat == bit_len(int_of(*a)),
{
    a.significant_bits()
}

} // verus!
