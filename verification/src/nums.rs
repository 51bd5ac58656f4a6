//! Mathematical groundwork: truncating division, greatest common divisors
//! and bit lengths, as spec functions over unbounded integers, with the
//! lemmas the rest of the crate needs about them.

use vstd::prelude::*;

verus! {

use vstd::arithmetic::div_mod::{
    lemma_fundamental_div_mod,
    lemma_fundamental_div_mod_converse,
};

pub open spec fn abs_i(x: int) -> int {
    if x < 0 {
        -x
    } else {
        x
    }
}

pub open spec fn sgn(x: int) -> int {
    if x < 0 {
        -1
    } else if x == 0 {
        0
    } else {
        1
    }
}

/// Quotient of `a / b` rounded towards zero, as hardware division
/// and GMP's `tdiv` compute it.
pub open spec fn trunc_div(a: int, b: int) -> int {
    sgn(a) * sgn(b) * (abs_i(a) / abs_i(b))
}

/// Remainder matching `trunc_div`: same sign as the dividend.
pub open spec fn trunc_rem(a: int, b: int) -> int {
    a - b * trunc_div(a, b)
}

pub open spec fn gcd_nat(a: nat, b: nat) -> nat
    decreases b,
{
    if b == 0 {
        a
    } else {
        gcd_nat(b, a % b)
    }
}

/// The non-negative greatest common divisor of two integers, as GMP's
/// `gcd` computes it (`gcd_int(0, 0) == 0`).
pub open spec fn gcd_int(a: int, b: int) -> int {
    gcd_nat(abs_i(a) as nat, abs_i(b) as nat) as int
}

pub open spec fn bit_len_nat(n: nat) -> nat
    decreases n,
{
    if n == 0 {
        0nat
    } else {
        1 + bit_len_nat(n / 2)
    }
}

/// Number of significant bits of the absolute value, with `bit_len(0) == 0`.
pub open spec fn bit_len(x: int) -> nat {
    bit_len_nat(abs_i(x) as nat)
}

/// The truncating quotient and remainder satisfy the division identity,
/// the remainder is smaller than the divisor and carries the dividend's sign.
pub proof fn lemma_trunc_div_rem(a: int, b: int)
    requires
        b != 0,
    ensures
        a == b * trunc_div(a, b) + trunc_rem(a, b),
        abs_i(trunc_rem(a, b)) < abs_i(b),
        a >= 0 ==> trunc_rem(a, b) >= 0,
        a <= 0 ==> trunc_rem(a, b) <= 0,
{
    let na = abs_i(a);
    let nb = abs_i(b);
    lemma_fundamental_div_mod(na, nb);
    assert(0 <= na % nb < nb);
    assert(na == nb * (na / nb) + na % nb);
    assert(a == sgn(a) * na) by (nonlinear_arith)
        requires na == abs_i(a),
    ;
    assert(b == sgn(b) * nb) by (nonlinear_arith)
        requires nb == abs_i(b), b != 0,
    ;
    assert(b * trunc_div(a, b) == sgn(a) * (nb * (na / nb))) by (nonlinear_arith)
        requires
            b == sgn(b) * nb,
            trunc_div(a, b) == sgn(a) * sgn(b) * (na / nb),
            sgn(b) * sgn(b) == 1,
    ;
    assert(sgn(b) * sgn(b) == 1);
    assert(trunc_rem(a, b) == sgn(a) * (na % nb)) by (nonlinear_arith)
        requires
            a == sgn(a) * na,
            b * trunc_div(a, b) == sgn(a) * (nb * (na / nb)),
            na == nb * (na / nb) + na % nb,
            trunc_rem(a, b) == a - b * trunc_div(a, b),
    ;
    assert(abs_i(trunc_rem(a, b)) < abs_i(b)) by (nonlinear_arith)
        requires
            trunc_rem(a, b) == sgn(a) * (na % nb),
            0 <= na % nb < nb,
            sgn(a) == 1 || sgn(a) == 0 || sgn(a) == -1,
            nb == abs_i(b),
    ;
    assert(a >= 0 ==> sgn(a) >= 0);
    assert(a >= 0 ==> trunc_rem(a, b) >= 0) by (nonlinear_arith)
        requires
            trunc_rem(a, b) == sgn(a) * (na % nb),
            0 <= na % nb,
            a >= 0 ==> sgn(a) >= 0,
    ;
    assert(a <= 0 ==> trunc_rem(a, b) <= 0) by (nonlinear_arith)
        requires
            trunc_rem(a, b) == sgn(a) * (na % nb),
            0 <= na % nb,
            a <= 0 ==> sgn(a) <= 0,
    ;
}

/// If `q * b == a` exactly, the truncating quotient of `a` by `b` is `q`.
pub proof fn lemma_trunc_div_exact(a: int, b: int, q: int)
    requires
        b != 0,
        a == q * b,
    ensures
        trunc_div(a, b) == q,
        trunc_rem(a, b) == 0,
{
    lemma_trunc_div_rem(a, b);
    let t = trunc_div(a, b);
    assert(a == b * t + trunc_rem(a, b));
    if trunc_rem(a, b) != 0 {
        assert((q - t) * b == trunc_rem(a, b)) by (nonlinear_arith)
            requires a == q * b, a == b * t + trunc_rem(a, b),
        ;
        assert(abs_i((q - t) * b) >= abs_i(b)) by (nonlinear_arith)
            requires q - t != 0, b != 0,
        ;
        assert(false);
    }
    assert(q * b == t * b);
    assert(q == t) by (nonlinear_arith)
        requires q * b == t * b, b != 0,
    ;
}

pub proof fn lemma_gcd_nat_divides(a: nat, b: nat)
    ensures
        gcd_nat(a, b) != 0 ==> a % gcd_nat(a, b) == 0 && b % gcd_nat(a, b) == 0,
        gcd_nat(a, b) == 0 ==> a == 0 && b == 0,
        a != 0 || b != 0 ==> gcd_nat(a, b) >= 1,
    decreases b,
{
    let g = gcd_nat(a, b);
    if b == 0 {
        assert(g == a);
        if g != 0 {
            vstd::arithmetic::div_mod::lemma_mod_self_0(g as int);
            vstd::arithmetic::div_mod::lemma_small_mod(0, g);
        }
    } else {
        lemma_gcd_nat_divides(b, (a % b) as nat);
        assert(g == gcd_nat(b, (a % b) as nat));
        if g == 0 {
            assert(b == 0);
            assert(false);
        }
        assert(b % g == 0 && (a % b) % g == 0);
        // a == b * (a / b) + a % b, and g divides both summands.
        lemma_fundamental_div_mod(a as int, b as int);
        lemma_divides_linear(g as int, b as int, (a % b) as int, (a / b) as int);
        assert(a % g == 0);
    }
}

/// If `g` divides `b` and `r`, it divides `b * q + r`.
proof fn lemma_divides_linear(g: int, b: int, r: int, q: int)
    requires
        g > 0,
        b % g == 0,
        r % g == 0,
    ensures
        (b * q + r) % g == 0,
{
    lemma_fundamental_div_mod(b, g);
    lemma_fundamental_div_mod(r, g);
    let bq = b / g;
    let rq = r / g;
    assert(b * q + r == (bq * q + rq) * g + 0) by (nonlinear_arith)
        requires b == g * bq, r == g * rq,
    ;
    lemma_fundamental_div_mod_converse(b * q + r, g, bq * q + rq, 0);
}

/// Scaling both arguments scales the gcd: `gcd(k a, k b) == k gcd(a, b)`.
pub proof fn lemma_gcd_nat_scale(k: nat, a: nat, b: nat)
    requires
        k > 0,
    ensures
        gcd_nat(k * a, k * b) == k * gcd_nat(a, b),
    decreases b,
{
    if b == 0 {
        assert(k * b == 0) by (nonlinear_arith) requires b == 0;
        assert(gcd_nat(k * a, 0) == k * a);
    } else {
        assert(k * b != 0) by (nonlinear_arith) requires k > 0, b != 0;
        // (k a) % (k b) == k (a % b)
        lemma_fundamental_div_mod(a as int, b as int);
        assert(0 <= a % b < b);
        let q = (a / b) as int;
        let r = (a % b) as int;
        let ki = k as int;
        assert(ki * (a as int) == q * (ki * (b as int)) + ki * r) by (nonlinear_arith)
            requires a as int == (b as int) * q + r,
        ;
        assert(0 <= ki * r < ki * (b as int)) by (nonlinear_arith)
            requires 0 <= r < b as int, ki > 0,
        ;
        lemma_fundamental_div_mod_converse(
            ki * (a as int), ki * (b as int), q, ki * r);
        assert((k * a) as int == ki * (a as int));
        assert((k * b) as int == ki * (b as int));
        assert((k * (a % b)) as int == ki * r);
        assert((k * a) % (k * b) == k * (a % b));
        lemma_gcd_nat_scale(k, b, (a % b) as nat);
        assert(gcd_nat(k * a, k * b) == gcd_nat(k * b, ((k * a) % (k * b)) as nat));
    }
}

/// For a positive divisor, the truncating quotient brackets the dividend:
/// a zero quotient means the dividend lies within `(-d, d)`, a positive
/// one gives the usual floor bounds.
pub proof fn lemma_trunc_div_pos_bounds(n: int, d: int)
    requires
        d > 0,
    ensures
        trunc_div(n, d) >= 1 ==> trunc_div(n, d) * d <= n < (trunc_div(n, d) + 1) * d,
        trunc_div(n, d) == 0 ==> -d < n < d,
{
    let t = trunc_div(n, d);
    lemma_trunc_div_rem(n, d);
    let r = trunc_rem(n, d);
    if t >= 1 {
        assert(n > 0) by (nonlinear_arith)
            requires
                t == sgn(n) * sgn(d) * (abs_i(n) / abs_i(d)),
                t >= 1,
                d > 0,
                sgn(d) == 1,
                abs_i(n) / abs_i(d) >= 0,
                n <= 0 ==> sgn(n) <= 0,
        ;
        assert(abs_i(n) / abs_i(d) >= 0);
        assert(r >= 0);
        assert(t * d <= n < (t + 1) * d) by (nonlinear_arith)
            requires n == d * t + r, 0 <= r < d,
        ;
    } else if t == 0 {
        assert(n == d * 0 + r) by (nonlinear_arith)
            requires n == d * t + r, t == 0,
        ;
        assert(-d < n < d);
    }
}

/// A quotient within floor bounds is the truncating quotient.
pub proof fn lemma_trunc_div_from_bounds(p: int, q: int, t: int)
    requires
        q > 0,
        t >= 0,
        t == 0 ==> -q < p < q,
        t >= 1 ==> t * q <= p < (t + 1) * q,
    ensures
        trunc_div(p, q) == t,
{
    if t == 0 {
        lemma_fundamental_div_mod_converse(abs_i(p), q, 0, abs_i(p));
        assert(abs_i(p) / q == 0);
        assert(trunc_div(p, q) == sgn(p) * sgn(q) * 0);
        assert(sgn(p) * sgn(q) * 0 == 0) by (nonlinear_arith);
    } else {
        assert(p >= q) by (nonlinear_arith)
            requires t * q <= p, t >= 1, q > 0,
        ;
        assert(p > 0);
        assert(p == t * q + (p - t * q));
        assert(0 <= p - t * q < q) by (nonlinear_arith)
            requires t * q <= p < (t + 1) * q,
        ;
        lemma_fundamental_div_mod_converse(p, q, t, p - t * q);
        assert(p / q == t);
        assert(abs_i(p) == p && abs_i(q) == q && sgn(p) == 1 && sgn(q) == 1);
        assert(trunc_div(p, q) == 1 * 1 * (p / q));
        assert(1 * 1 * (p / q) == p / q) by (nonlinear_arith);
    }
}

/// Doubling the divisor strictly shrinks a quotient that is at least two.
pub proof fn lemma_half_quot(nn: int, dd: int)
    requires
        dd >= 1,
        nn >= 2 * dd,
    ensures
        1 <= nn / (2 * dd) < nn / dd,
{
    let q = nn / (2 * dd);
    vstd::arithmetic::div_mod::lemma_div_is_ordered(2 * dd, nn, 2 * dd);
    vstd::arithmetic::div_mod::lemma_div_by_self(2 * dd);
    assert(q >= 1);
    lemma_fundamental_div_mod(nn, 2 * dd);
    assert(nn >= (2 * dd) * q);
    assert((2 * dd) * q == dd * (2 * q)) by (nonlinear_arith);
    vstd::arithmetic::div_mod::lemma_div_is_ordered(dd * (2 * q), nn, dd);
    vstd::arithmetic::div_mod::lemma_div_multiples_vanish(2 * q, dd);
    assert(nn / dd >= 2 * q);
}

/// An exact multiple divides back to its factor.
pub proof fn lemma_div_exact_back(x: int, q: int, g: int)
    requires
        g >= 1,
        x == q * g,
    ensures
        x / g == q,
{
    lemma_fundamental_div_mod_converse(x, g, q, 0);
}

/// A positive factor moves out of an absolute value.
pub proof fn lemma_abs_mul_pos(x: int, g: int)
    requires
        g >= 1,
    ensures
        abs_i(x * g) == abs_i(x) * g,
{
    if x >= 0 {
        assert(x * g >= 0) by (nonlinear_arith)
            requires x >= 0, g >= 0,
        ;
    } else {
        assert(x * g < 0) by (nonlinear_arith)
            requires x < 0, g >= 1,
        ;
        assert(-(x * g) == (-x) * g) by (nonlinear_arith);
    }
}

/// After dividing out the gcd nothing common is left: the reduced pair is coprime.
pub proof fn lemma_gcd_of_reduced(a: nat, b: nat)
    requires
        a != 0 || b != 0,
    ensures
        gcd_nat(a / gcd_nat(a, b), b / gcd_nat(a, b)) == 1,
{
    let g = gcd_nat(a, b);
    lemma_gcd_nat_divides(a, b);
    assert(g >= 1);
    lemma_fundamental_div_mod(a as int, g as int);
    lemma_fundamental_div_mod(b as int, g as int);
    assert(a == g * (a / g));
    assert(b == g * (b / g));
    lemma_gcd_nat_scale(g, a / g, b / g);
    assert(gcd_nat(a, b) == g * gcd_nat(a / g, b / g));
    assert(g * 1 == g) by (nonlinear_arith);
    assert(gcd_nat(a / g, b / g) == 1) by (nonlinear_arith)
        requires g == g * gcd_nat(a / g, b / g), g >= 1,
    ;
}

} // verus!
