//! Exact rationals: an arbitrary-precision numerator/denominator pair.
//!
//! A zero denominator is a sentinel for an infinite value, not an error.
//! Nothing is reduced automatically; callers ask for a gcd reduction when
//! they are willing to pay for it.

use vstd::prelude::*;

verus! {

use crate::bigint::{
    int_of, int_from_i128, int_clone, int_sub, int_gcd, int_div_exact,
    int_le, int_ge_i128, int_eq_i128,
};
use crate::nums::{
    abs_i, sgn, gcd_int, gcd_nat, trunc_rem, lemma_trunc_div_exact,
    lemma_gcd_nat_divides, lemma_gcd_of_reduced,
};

/// `n/d >= 1`, read with the sign of the denominator. A zero denominator
/// is the infinity sentinel, and an infinite value is at least one
/// whatever the numerator's sign.
pub open spec fn at_least_one(n: int, d: int) -> bool {
    if d == 0 {
        true
    } else if d > 0 {
        n >= d
    } else {
        n <= d
    }
}

/// `n/d >= 2`, read with the sign of the denominator; an infinite value is
/// at least two.
pub open spec fn at_least_two(n: int, d: int) -> bool {
    if d == 0 {
        true
    } else if d > 0 {
        n - d >= d
    } else {
        n - d <= d
    }
}

/// Swapping numerator and denominator, the model of `Frac::inv`.
pub open spec fn inv_pair(p: (int, int)) -> (int, int) {
    (p.1, p.0)
}

pub struct Frac {
    pub num: rug::Integer,
    pub den: rug::Integer,
}

impl Frac {
    pub open spec fn num_int(&self) -> int {
        int_of(self.num)
    }

    pub open spec fn den_int(&self) -> int {
        int_of(self.den)
    }

    pub open spec fn pair(&self) -> (int, int) {
        (self.num_int(), self.den_int())
    }

    pub fn from_i128(x: i128, y: i128) -> (r: Self)
        ensures
            r.pair() == (x as int, y as int),
    {
        Frac { num: int_from_i128(x), den: int_from_i128(y) }
    }

    pub fn from_int(x: rug::Integer, y: rug::Integer) -> (r: Self)
        ensures
            r.pair() == (int_of(x), int_of(y)),
    {
        Frac { num: x, den: y }
    }

    /// Swap numerator and denominator in place.
    pub fn inv(&mut self)
        ensures
            final(self).pair() == inv_pair(old(self).pair()),
    {
        std::mem::swap(&mut self.num, &mut self.den);
    }

    /// Divide numerator and denominator by their gcd.
    pub fn gcd_div(&mut self)
        requires
            old(self).num_int() != 0 || old(self).den_int() != 0,
        ensures
            gcd_int(old(self).num_int(), old(self).den_int()) >= 1,
            final(self).num_int() * gcd_int(old(self).num_int(), old(self).den_int())
                == old(self).num_int(),
            final(self).den_int() * gcd_int(old(self).num_int(), old(self).den_int())
                == old(self).den_int(),
    {
        let g = int_gcd(&self.num, &self.den);
        proof {
            lemma_gcd_divides_pair(self.num_int(), self.den_int());
        }
        self.num = int_div_exact(&self.num, &g);
        self.den = int_div_exact(&self.den, &g);
    }

    pub fn atleast1(&self) -> (r: bool)
        ensures
            r == at_least_one(self.num_int(), self.den_int()),
    {
        if int_eq_i128(&self.den, 0) {
            true
        } else if int_ge_i128(&self.den, 1) {
            int_le(&self.den, &self.num)
        } else {
            int_le(&self.num, &self.den)
        }
    }

    pub fn atleast2(&self) -> (r: bool)
        ensures
            r == at_least_two(self.num_int(), self.den_int()),
    {
        if int_eq_i128(&self.den, 0) {
            return true;
        }
        let diff = int_sub(&self.num, &self.den);
        if int_ge_i128(&self.den, 1) {
            int_le(&self.den, &diff)
        } else {
            int_le(&diff, &self.den)
        }
    }

    pub fn finite(&self) -> (r: bool)
        ensures
            r == (self.den_int() != 0),
    {
        !int_eq_i128(&self.den, 0)
    }
}

impl Clone for Frac {
    fn clone(&self) -> (r: Self)
        ensures
            r.pair() == self.pair(),
    {
        Frac { num: int_clone(&self.num), den: int_clone(&self.den) }
    }
}

/// The gcd of a pair divides both members exactly, in the truncating sense
/// used by the executable division; it is positive unless both are zero.
pub proof fn lemma_gcd_divides_pair(n: int, d: int)
    requires
        n != 0 || d != 0,
    ensures
        gcd_int(n, d) >= 1,
        trunc_rem(n, gcd_int(n, d)) == 0,
        trunc_rem(d, gcd_int(n, d)) == 0,
{
    let g = gcd_int(n, d);
    lemma_gcd_nat_divides(abs_i(n) as nat, abs_i(d) as nat);
    assert(g >= 1);
    lemma_divisible_abs(n, g);
    lemma_divisible_abs(d, g);
}

/// Divisibility of absolute values gives a zero truncating remainder.
proof fn lemma_divisible_abs(a: int, b: int)
    requires
        b > 0,
        (abs_i(a) as nat) % (b as nat) == 0,
    ensures
        trunc_rem(a, b) == 0,
{
    let na = abs_i(a);
    vstd::arithmetic::div_mod::lemma_fundamental_div_mod(na, b);
    let q = na / b;
    assert(na == b * q);
    assert(a == (sgn(a) * q) * b) by (nonlinear_arith)
        requires na == b * q, na == abs_i(a), a == sgn(a) * abs_i(a),
    ;
    assert(a == sgn(a) * abs_i(a)) by (nonlinear_arith);
    lemma_trunc_div_exact(a, b, sgn(a) * q);
}

/// Idempotence of gcd reduction: whatever a first reduction produced is a
/// coprime pair, so a second reduction divides by one and changes nothing.
pub proof fn lemma_gcd_reduce_idempotent(n: int, d: int, n1: int, d1: int)
    requires
        n != 0 || d != 0,
        n1 * gcd_int(n, d) == n,
        d1 * gcd_int(n, d) == d,
    ensures
        gcd_int(n1, d1) == 1,
{
    let g = gcd_int(n, d);
    lemma_gcd_nat_divides(abs_i(n) as nat, abs_i(d) as nat);
    assert(g >= 1);
    let an = abs_i(n) as nat;
    let ad = abs_i(d) as nat;
    crate::nums::lemma_abs_mul_pos(n1, g);
    assert(abs_i(n1) * g == an);
    crate::nums::lemma_abs_mul_pos(d1, g);
    assert(abs_i(d1) * g == ad);
    vstd::arithmetic::div_mod::lemma_fundamental_div_mod_converse(
        an as int, g, abs_i(n1), 0);
    vstd::arithmetic::div_mod::lemma_fundamental_div_mod_converse(
        ad as int, g, abs_i(d1), 0);
    assert(abs_i(n1) == an as int / g);
    assert(abs_i(d1) == ad as int / g);
    lemma_gcd_of_reduced(an, ad);
    assert(gcd_nat(an, ad) == g);
    assert(gcd_nat((an / (g as nat)), (ad / (g as nat))) == 1);
    assert(an as int / g == (an / (g as nat)) as int);
    assert(ad as int / g == (ad / (g as nat)) as int);
    assert(gcd_int(n1, d1) == gcd_nat(abs_i(n1) as nat, abs_i(d1) as nat));
}

/// A gcd reduction of a coprime pair changes nothing: together with
/// `lemma_gcd_reduce_idempotent`, reducing an already-reduced rational by
/// gcd again is a no-op.
pub proof fn lemma_reduce_of_coprime_is_identity(n: int, d: int, n2: int, d2: int)
    requires
        gcd_int(n, d) == 1,
        n2 * gcd_int(n, d) == n,
        d2 * gcd_int(n, d) == d,
    ensures
        n2 == n,
        d2 == d,
{
}

/// Involution: swapping numerator and denominator twice is the identity.
pub proof fn lemma_inv_involution(p: (int, int))
    ensures
        inv_pair(inv_pair(p)) == p,
{
}

} // verus!
