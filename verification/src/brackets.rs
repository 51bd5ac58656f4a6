//! Bracketing pairs of convergents of a generalized continued fraction.
//!
//! A `KFrac` holds two rational convergents advanced by a term generator.
//! The pair of pairs is modelled as one 2x2 integer matrix, each recurrence
//! step as a right multiplication by the step matrix `[[0, a], [1, b]]`.
//! Batched advancement evaluates the product of step matrices by binary
//! splitting and is proved equal to the same number of single steps.

use vstd::prelude::*;

verus! {

use crate::bigint::{int_of, int_from_i128, int_add, int_mul, int_gcd, int_div_exact, int_div_rem};
use crate::fractions::{Frac, at_least_one, at_least_two, lemma_gcd_divides_pair};
use crate::nums::{gcd_int, trunc_rem, lemma_trunc_div_exact, lemma_trunc_div_rem,
    lemma_gcd_nat_divides, abs_i};

/// A 2x2 integer matrix `(m11, m12, m21, m22)`.
pub type Mat = (int, int, int, int);

pub open spec fn mat_mul(x: Mat, y: Mat) -> Mat {
    (
        x.0 * y.0 + x.1 * y.2,
        x.0 * y.1 + x.1 * y.3,
        x.2 * y.0 + x.3 * y.2,
        x.2 * y.1 + x.3 * y.3,
    )
}

/// A generator of recurrence coefficient pairs. Index `0` yields the seed
/// pair, whose first member is unused; indices from `1` on yield the
/// coefficients of one matrix step. `in_dom` bounds the indices at which
/// the terms fit machine integers; it is an initial segment of the
/// non-negative indices, which `dom_closed` states and `in_dom_at` tests
/// at run time, so a driver can stop at the domain's edge instead of
/// overrunning it.
pub trait TermGen: Sized {
    spec fn in_dom(&self, m: int) -> bool;

    spec fn spec_term(&self, m: int) -> (int, int);

    fn term(&self, m: i128) -> (r: (i128, i128))
        requires
            self.in_dom(m as int),
        ensures
            (r.0 as int, r.1 as int) == self.spec_term(m as int),
    ;

    fn in_dom_at(&self, m: i128) -> (r: bool)
        ensures
            r == self.in_dom(m as int),
    ;

    proof fn dom_closed(&self, m1: int, m2: int)
        requires
            0 <= m1 <= m2,
            self.in_dom(m2),
        ensures
            self.in_dom(m1),
    ;
}

/// The matrix of one recurrence step.
pub open spec fn step_mat<G: TermGen>(g: G, m: int) -> Mat {
    (0, g.spec_term(m).0, 1, g.spec_term(m).1)
}

/// Left-to-right product of the step matrices of indices `m1..=m2`.
pub open spec fn mat_prod<G: TermGen>(g: G, m1: int, m2: int) -> Mat
    decreases m2 - m1,
{
    if m2 <= m1 {
        step_mat(g, m1)
    } else {
        mat_mul(mat_prod(g, m1, m2 - 1), step_mat(g, m2))
    }
}

/// The state after `k` single recurrence steps from `s`, the first step
/// using index `n0 + 1`.
pub open spec fn advanced<G: TermGen>(s: Mat, g: G, n0: int, k: nat) -> Mat
    decreases k,
{
    if k == 0 {
        s
    } else {
        mat_mul(advanced(s, g, n0, (k - 1) as nat), step_mat(g, n0 + k))
    }
}

pub proof fn lemma_mat_mul_assoc(a: Mat, b: Mat, c: Mat)
    ensures
        mat_mul(mat_mul(a, b), c) == mat_mul(a, mat_mul(b, c)),
{
    lemma_assoc_entry(a.0, a.1, b.0, b.1, b.2, b.3, c.0, c.2);
    lemma_assoc_entry(a.0, a.1, b.0, b.1, b.2, b.3, c.1, c.3);
    lemma_assoc_entry(a.2, a.3, b.0, b.1, b.2, b.3, c.0, c.2);
    lemma_assoc_entry(a.2, a.3, b.0, b.1, b.2, b.3, c.1, c.3);
}

/// One entry of the associativity of 2x2 matrix multiplication.
#[verifier::rlimit(50)]
proof fn lemma_assoc_entry(x: int, y: int, p: int, q: int, r: int, s: int, u: int, v: int)
    ensures
        (x * p + y * r) * u + (x * q + y * s) * v
            == x * (p * u + q * v) + y * (r * u + s * v),
{
    assert((x * p + y * r) * u == x * (p * u) + y * (r * u)) by (nonlinear_arith);
    assert((x * q + y * s) * v == x * (q * v) + y * (s * v)) by (nonlinear_arith);
    assert(x * (p * u) + x * (q * v) == x * (p * u + q * v)) by (nonlinear_arith);
    assert(y * (r * u) + y * (s * v) == y * (r * u + s * v)) by (nonlinear_arith);
}

/// The product over a range splits at any midpoint.
pub proof fn lemma_mat_prod_split<G: TermGen>(g: G, m1: int, mid: int, m2: int)
    requires
        m1 <= mid < m2,
    ensures
        mat_prod(g, m1, m2) == mat_mul(mat_prod(g, m1, mid), mat_prod(g, mid + 1, m2)),
    decreases m2 - mid,
{
    if mid + 1 == m2 {
    } else {
        lemma_mat_prod_split(g, m1, mid, m2 - 1);
        lemma_mat_mul_assoc(
            mat_prod(g, m1, mid),
            mat_prod(g, mid + 1, m2 - 1),
            step_mat(g, m2),
        );
    }
}

/// Binary-splitting equivalence: one batched advancement over `k` indices
/// equals `k` sequential single steps, with exact equality of all four
/// integers of the state.
pub proof fn lemma_batch_equals_singles<G: TermGen>(s: Mat, g: G, n0: int, k: nat)
    requires
        k >= 1,
    ensures
        advanced(s, g, n0, k) == mat_mul(s, mat_prod(g, n0 + 1, n0 + k)),
    decreases k,
{
    if k == 1 {
        assert(advanced(s, g, n0, 0nat) == s);
        assert(advanced(s, g, n0, 1nat) == mat_mul(s, step_mat(g, n0 + 1)));
        assert(mat_prod(g, n0 + 1, n0 + 1) == step_mat(g, n0 + 1));
    } else {
        lemma_batch_equals_singles(s, g, n0, (k - 1) as nat);
        lemma_mat_mul_assoc(s, mat_prod(g, n0 + 1, n0 + k - 1), step_mat(g, n0 + k));
    }
}

/// A bracketing pair of convergents: the true value of the continued
/// fraction lies between `frac1` and `frac2`, their roles alternating with
/// the parity of `n`.
pub struct KFrac<G: TermGen> {
    pub n: i128,
    pub ab: G,
    pub frac1: Frac,
    pub frac2: Frac,
}

pub open spec fn mat_of(m: &(rug::Integer, rug::Integer, rug::Integer, rug::Integer)) -> Mat {
    (int_of(m.0), int_of(m.1), int_of(m.2), int_of(m.3))
}

/// The gcd of all four state integers, grouped as the executable
/// reduction computes it.
pub open spec fn four_gcd(s: Mat) -> int {
    gcd_int(gcd_int(s.1, s.3), gcd_int(s.0, s.2))
}

fn mat_mul_big(
    x: &(rug::Integer, rug::Integer, rug::Integer, rug::Integer),
    y: &(rug::Integer, rug::Integer, rug::Integer, rug::Integer),
) -> (r: (rug::Integer, rug::Integer, rug::Integer, rug::Integer))
    ensures
        mat_of(&r) == mat_mul(mat_of(x), mat_of(y)),
{
    let r11 = int_add(&int_mul(&x.0, &y.0), &int_mul(&x.1, &y.2));
    let r12 = int_add(&int_mul(&x.0, &y.1), &int_mul(&x.1, &y.3));
    let r21 = int_add(&int_mul(&x.2, &y.0), &int_mul(&x.3, &y.2));
    let r22 = int_add(&int_mul(&x.2, &y.1), &int_mul(&x.3, &y.3));
    (r11, r12, r21, r22)
}

/// Product of the step matrices of `m1..=m2` by binary splitting: split the
/// range at its midpoint, evaluate each half recursively, combine with one
/// matrix multiplication.
fn matrix_bs<G: TermGen>(g: &G, m1: i128, m2: i128) -> (r: (
    rug::Integer,
    rug::Integer,
    rug::Integer,
    rug::Integer,
))
    requires
        0 <= m1 <= m2,
        forall|m: int| m1 as int <= m <= m2 as int ==> g.in_dom(m),
    ensures
        mat_of(&r) == mat_prod(*g, m1 as int, m2 as int),
    decreases m2 - m1,
{
    if m1 == m2 {
        let t = g.term(m1);
        (int_from_i128(0), int_from_i128(t.0), int_from_i128(1), int_from_i128(t.1))
    } else {
        let mid = m1 + (m2 - m1) / 2;
        let left = matrix_bs(g, m1, mid);
        let right = matrix_bs(g, mid + 1, m2);
        proof {
            lemma_mat_prod_split(*g, m1 as int, mid as int, m2 as int);
        }
        mat_mul_big(&left, &right)
    }
}

impl<G: TermGen> KFrac<G> {
    /// The generator this pair advances by.
    pub open spec fn gen(&self) -> G {
        self.ab
    }

    /// The four state integers `(frac1.num, frac2.num, frac1.den, frac2.den)`
    /// as one matrix.
    pub open spec fn state(&self) -> Mat {
        (
            self.frac1.num_int(),
            self.frac2.num_int(),
            self.frac1.den_int(),
            self.frac2.den_int(),
        )
    }

    /// Start a pair at the seed: `frac1 = 1/0`, `frac2 = b0/1`.
    pub fn from(ab: G) -> (r: Self)
        requires
            ab.in_dom(0),
        ensures
            r.n == 0,
            r.gen() == ab,
            r.state() == (1int, ab.spec_term(0).1, 0int, 1int),
    {
        let t = ab.term(0);
        let f1 = Frac::from_i128(1, 0);
        let f2 = Frac::from_i128(t.1, 1);
        KFrac { n: 0, ab, frac1: f1, frac2: f2 }
    }

    pub fn atleast1(&self) -> (r: (bool, bool))
        ensures
            r.0 == at_least_one(self.frac1.num_int(), self.frac1.den_int()),
            r.1 == at_least_one(self.frac2.num_int(), self.frac2.den_int()),
    {
        (self.frac1.atleast1(), self.frac2.atleast1())
    }

    pub fn atleast2(&self) -> (r: (bool, bool))
        ensures
            r.0 == at_least_two(self.frac1.num_int(), self.frac1.den_int()),
            r.1 == at_least_two(self.frac2.num_int(), self.frac2.den_int()),
    {
        (self.frac1.atleast2(), self.frac2.atleast2())
    }

    /// Only when both convergents are `x/0` is the bracket surely infinite.
    pub fn finite(&self) -> (r: bool)
        ensures
            r == (self.frac1.den_int() != 0 || self.frac2.den_int() != 0),
    {
        self.frac1.finite() || self.frac2.finite()
    }

    /// One recurrence step: right-multiply the state by the step matrix of
    /// index `n + 1` and exchange the two convergents.
    pub fn prop(&mut self)
        requires
            old(self).n < i128::MAX,
            old(self).gen().in_dom(old(self).n as int + 1),
        ensures
            final(self).n == old(self).n + 1,
            final(self).gen() == old(self).gen(),
            final(self).state() == mat_mul(
                old(self).state(),
                step_mat(old(self).gen(), old(self).n as int + 1),
            ),
    {
        self.n = self.n + 1;
        let t = self.ab.term(self.n);
        let ai = int_from_i128(t.0);
        let bi = int_from_i128(t.1);
        let new_num = int_add(&int_mul(&self.frac1.num, &ai), &int_mul(&self.frac2.num, &bi));
        let new_den = int_add(&int_mul(&self.frac1.den, &ai), &int_mul(&self.frac2.den, &bi));
        self.frac1.num = new_num;
        self.frac1.den = new_den;
        std::mem::swap(&mut self.frac1, &mut self.frac2);
        proof {
            let s = old(self).state();
            let sm = step_mat(old(self).gen(), old(self).n as int + 1);
            assert(sm.0 == 0 && sm.2 == 1);
            assert(s.0 * 0int + s.1 * 1int == s.1) by (nonlinear_arith);
            assert(s.2 * 0int + s.3 * 1int == s.3) by (nonlinear_arith);
        }
    }

    /// Advance by `new` steps at once using binary splitting. The result is
    /// exactly the state `new` single `prop` calls would reach.
    pub fn prop_bs(&mut self, new: i128)
        requires
            1 <= new,
            0 <= old(self).n,
            old(self).n + new <= i128::MAX,
            forall|m: int|
                (old(self).n as int) < m <= (old(self).n as int) + (new as int)
                    ==> old(self).gen().in_dom(m),
        ensures
            final(self).n == old(self).n + new,
            final(self).gen() == old(self).gen(),
            final(self).state() == advanced(
                old(self).state(),
                old(self).gen(),
                old(self).n as int,
                new as nat,
            ),
    {
        let m1 = self.n + 1;
        let m2 = self.n + new;
        proof {
            assert forall|m: int| m1 as int <= m <= m2 as int implies self.ab.in_dom(m) by {
                assert(old(self).gen().in_dom(m));
            }
        }
        let p = matrix_bs(&self.ab, m1, m2);
        let r11 = int_add(&int_mul(&self.frac1.num, &p.0), &int_mul(&self.frac2.num, &p.2));
        let r12 = int_add(&int_mul(&self.frac1.num, &p.1), &int_mul(&self.frac2.num, &p.3));
        let r21 = int_add(&int_mul(&self.frac1.den, &p.0), &int_mul(&self.frac2.den, &p.2));
        let r22 = int_add(&int_mul(&self.frac1.den, &p.1), &int_mul(&self.frac2.den, &p.3));
        self.frac1.num = r11;
        self.frac2.num = r12;
        self.frac1.den = r21;
        self.frac2.den = r22;
        self.n = self.n + new;
        proof {
            lemma_batch_equals_singles(
                old(self).state(),
                old(self).gen(),
                old(self).n as int,
                new as nat,
            );
        }
    }

    /// A precision estimate from the bracket width: roughly how many bits
    /// of `frac2` the cross-difference of the two convergents certifies,
    /// clamped to zero while the bracket is too wide, with the error
    /// fraction itself as a second component. An all-infinite error
    /// denominator reports zero certified bits and an infinite error.
    pub fn stats(&self) -> (r: (u32, Frac))
        requires
            ({
                let s = self.state();
                s.3 * s.2 != 0 ==> crate::nums::bit_len(crate::nums::trunc_div(s.1, s.3))
                    + crate::nums::bit_len(s.3 * s.2) + 1 <= u32::MAX as int
                    && crate::nums::bit_len(abs_i(s.1 * s.2 - s.0 * s.3)) <= u32::MAX as nat
            }),
        ensures
            ({
                let s = self.state();
                let ed = s.3 * s.2;
                let en = abs_i(s.1 * s.2 - s.0 * s.3);
                if ed == 0 {
                    r.0 == 0 && r.1.pair() == (1int, 0int)
                } else {
                    r.1.pair() == (en, ed) && r.0 as int == ({
                        let p = crate::nums::bit_len(crate::nums::trunc_div(s.1, s.3)) as int
                            + crate::nums::bit_len(ed) as int + 1;
                        if p >= crate::nums::bit_len(en) as int {
                            p - crate::nums::bit_len(en) as int
                        } else {
                            0
                        }
                    })
                }
            }),
    {
        let err_den = int_mul(&self.frac2.den, &self.frac1.den);
        if crate::bigint::int_eq_i128(&err_den, 0) {
            return (0, Frac::from_i128(1, 0));
        }
        proof {
            assert(self.frac2.den_int() != 0) by (nonlinear_arith)
                requires self.state().3 * self.state().2 != 0,
                    self.state().3 == int_of(self.frac2.den),
                    self.state().2 == int_of(self.frac1.den),
            ;
        }
        let cross1 = int_mul(&self.frac2.num, &self.frac1.den);
        let cross2 = int_mul(&self.frac1.num, &self.frac2.den);
        let err_num = crate::bigint::int_abs(&crate::bigint::int_sub(&cross1, &cross2));
        let qd = int_div_rem(&self.frac2.num, &self.frac2.den);
        let whole = crate::bigint::int_signif_bits(&qd.0);
        let b1 = crate::bigint::int_signif_bits(&err_den);
        let b2 = crate::bigint::int_signif_bits(&err_num);
        let p: u64 = whole as u64 + b1 as u64 + 1;
        let prec: u64 = if p >= b2 as u64 {
            p - b2 as u64
        } else {
            0
        };
        (prec as u32, Frac::from_int(err_num, err_den))
    }

    /// Divide both convergents by the gcd of all four state integers.
    pub fn gcd_div(&mut self)
        requires
            old(self).state() != (0int, 0int, 0int, 0int),
        ensures
            final(self).n == old(self).n,
            final(self).gen() == old(self).gen(),
            four_gcd(old(self).state()) >= 1,
            final(self).state().0 * four_gcd(old(self).state()) == old(self).state().0,
            final(self).state().1 * four_gcd(old(self).state()) == old(self).state().1,
            final(self).state().2 * four_gcd(old(self).state()) == old(self).state().2,
            final(self).state().3 * four_gcd(old(self).state()) == old(self).state().3,
    {
        let g1 = int_gcd(&self.frac1.num, &self.frac1.den);
        let g2 = int_gcd(&self.frac2.num, &self.frac2.den);
        let g = int_gcd(&g2, &g1);
        proof {
            lemma_four_gcd_divides(self.state());
        }
        self.frac1.num = int_div_exact(&self.frac1.num, &g);
        self.frac1.den = int_div_exact(&self.frac1.den, &g);
        self.frac2.num = int_div_exact(&self.frac2.num, &g);
        self.frac2.den = int_div_exact(&self.frac2.den, &g);
    }
}

/// Divisibility of one non-negative integer by another carries over to the
/// truncating remainder of any integer the first divides.
proof fn lemma_trunc_divides_transitive(x: int, b: int, c: int)
    requires
        b >= 1,
        c >= 1,
        trunc_rem(x, b) == 0,
        trunc_rem(b, c) == 0,
    ensures
        trunc_rem(x, c) == 0,
{
    lemma_trunc_div_rem(x, b);
    lemma_trunc_div_rem(b, c);
    let q1 = crate::nums::trunc_div(x, b);
    let q2 = crate::nums::trunc_div(b, c);
    assert(x == (q2 * q1) * c) by (nonlinear_arith)
        requires x == b * q1 + 0, b == c * q2 + 0,
    ;
    lemma_trunc_div_exact(x, c, q2 * q1);
}

/// The grouped gcd of the four state integers divides each of them.
proof fn lemma_four_gcd_divides(s: Mat)
    requires
        s != (0int, 0int, 0int, 0int),
    ensures
        four_gcd(s) >= 1,
        trunc_rem(s.0, four_gcd(s)) == 0,
        trunc_rem(s.1, four_gcd(s)) == 0,
        trunc_rem(s.2, four_gcd(s)) == 0,
        trunc_rem(s.3, four_gcd(s)) == 0,
{
    let g1 = gcd_int(s.0, s.2);
    let g2 = gcd_int(s.1, s.3);
    let g = gcd_int(g2, g1);
    lemma_gcd_nat_divides(abs_i(s.0) as nat, abs_i(s.2) as nat);
    lemma_gcd_nat_divides(abs_i(s.1) as nat, abs_i(s.3) as nat);
    assert(g1 != 0 || g2 != 0);
    lemma_gcd_divides_pair(g2, g1);
    assert(g >= 1);
    assert(trunc_rem(g1, g) == 0 && trunc_rem(g2, g) == 0);
    lemma_pair_member_divides(s.0, s.2, g);
    lemma_pair_member_divides(s.1, s.3, g);
}

/// If the grouped gcd `g` divides `gcd(x, y)`, it divides `x` and `y`, also
/// in the degenerate cases where a member is zero.
proof fn lemma_pair_member_divides(x: int, y: int, g: int)
    requires
        g >= 1,
        trunc_rem(gcd_int(x, y), g) == 0 || gcd_int(x, y) == 0,
    ensures
        trunc_rem(x, g) == 0,
        trunc_rem(y, g) == 0,
{
    let gp = gcd_int(x, y);
    if x == 0 && y == 0 {
        lemma_trunc_div_exact(0, g, 0);
    } else {
        lemma_gcd_divides_pair(x, y);
        assert(gp >= 1);
        if x == 0 {
            lemma_trunc_div_exact(0, g, 0);
        } else {
            lemma_trunc_divides_transitive(x, gp, g);
        }
        if y == 0 {
            lemma_trunc_div_exact(0, g, 0);
        } else {
            lemma_trunc_divides_transitive(y, gp, g);
        }
    }
}

} // verus!
