//! Term generators for generalized continued fractions of some
//! mathematical constants. Each constant has a coefficient function and a
//! unit struct implementing `TermGen` around it; the domain bound of each
//! generator keeps its terms inside `i128`.

use vstd::prelude::*;

verus! {

use crate::brackets::TermGen;

pub open spec fn spec_sqrt2_ab(n: int) -> (int, int) {
    if n == 0 {
        (1, 1)
    } else {
        (1, 2)
    }
}

pub fn sqrt2_ab(n: i128) -> (r: (i128, i128))
    ensures
        (r.0 as int, r.1 as int) == spec_sqrt2_ab(n as int),
{
    if n == 0 {
        (1, 1)
    } else {
        (1, 2)
    }
}

#[derive(Clone, Copy, PartialEq, Eq)]
pub struct Sqrt2Gen;

impl TermGen for Sqrt2Gen {
    open spec fn in_dom(&self, m: int) -> bool {
        0 <= m
    }

    open spec fn spec_term(&self, m: int) -> (int, int) {
        spec_sqrt2_ab(m)
    }

    fn term(&self, m: i128) -> (r: (i128, i128)) {
        sqrt2_ab(m)
    }

    fn in_dom_at(&self, m: i128) -> (r: bool) {
        0 <= m
    }

    proof fn dom_closed(&self, m1: int, m2: int) {
    }
}

pub open spec fn spec_sqrt13_ab(n: int) -> (int, int) {
    if n == 0 {
        (1, 3)
    } else if n % 5 == 4 {
        (1, 6)
    } else {
        (1, 1)
    }
}

pub fn sqrt13_ab(n: i128) -> (r: (i128, i128))
    requires
        0 <= n,
    ensures
        (r.0 as int, r.1 as int) == spec_sqrt13_ab(n as int),
{
    if n == 0 {
        (1, 3)
    } else if n % 5 == 4 {
        (1, 6)
    } else {
        (1, 1)
    }
}

#[derive(Clone, Copy, PartialEq, Eq)]
pub struct Sqrt13Gen;

impl TermGen for Sqrt13Gen {
    open spec fn in_dom(&self, m: int) -> bool {
        0 <= m
    }

    open spec fn spec_term(&self, m: int) -> (int, int) {
        spec_sqrt13_ab(m)
    }

    fn term(&self, m: i128) -> (r: (i128, i128)) {
        sqrt13_ab(m)
    }

    fn in_dom_at(&self, m: i128) -> (r: bool) {
        0 <= m
    }

    proof fn dom_closed(&self, m1: int, m2: int) {
    }
}

pub open spec fn spec_gold_ab(n: int) -> (int, int) {
    (1, 1)
}

pub fn gold_ab(n: i128) -> (r: (i128, i128))
    ensures
        (r.0 as int, r.1 as int) == spec_gold_ab(n as int),
{
    (1, 1)
}

#[derive(Clone, Copy, PartialEq, Eq)]
pub struct GoldGen;

impl TermGen for GoldGen {
    open spec fn in_dom(&self, m: int) -> bool {
        0 <= m
    }

    open spec fn spec_term(&self, m: int) -> (int, int) {
        spec_gold_ab(m)
    }

    fn term(&self, m: i128) -> (r: (i128, i128)) {
        gold_ab(m)
    }

    fn in_dom_at(&self, m: i128) -> (r: bool) {
        0 <= m
    }

    proof fn dom_closed(&self, m1: int, m2: int) {
    }
}

/// The regular continued fraction of e.
pub open spec fn spec_e_ab(n: int) -> (int, int) {
    if n == 0 {
        (1, 2)
    } else if n % 3 == 0 || n % 3 == 1 {
        (1, 1)
    } else {
        (1, 2 * (n / 3 + 1))
    }
}

pub fn e_ab(n: i128) -> (r: (i128, i128))
    requires
        0 <= n,
    ensures
        (r.0 as int, r.1 as int) == spec_e_ab(n as int),
{
    if n == 0 {
        (1, 2)
    } else if n % 3 == 0 || n % 3 == 1 {
        (1, 1)
    } else {
        (1, 2 * (n / 3 + 1))
    }
}

#[derive(Clone, Copy, PartialEq, Eq)]
pub struct EGen;

impl TermGen for EGen {
    open spec fn in_dom(&self, m: int) -> bool {
        0 <= m
    }

    open spec fn spec_term(&self, m: int) -> (int, int) {
        spec_e_ab(m)
    }

    fn term(&self, m: i128) -> (r: (i128, i128)) {
        e_ab(m)
    }

    fn in_dom_at(&self, m: i128) -> (r: bool) {
        0 <= m
    }

    proof fn dom_closed(&self, m1: int, m2: int) {
    }
}

/// A generalized continued fraction of e.
pub open spec fn spec_e2_ab(n: int) -> (int, int) {
    if n == 0 {
        (1, 2)
    } else if n == 1 {
        (1, 1)
    } else {
        (n - 1, n)
    }
}

pub fn e2_ab(n: i128) -> (r: (i128, i128))
    requires
        0 <= n,
    ensures
        (r.0 as int, r.1 as int) == spec_e2_ab(n as int),
{
    if n == 0 {
        (1, 2)
    } else if n == 1 {
        (1, 1)
    } else {
        (n - 1, n)
    }
}

#[derive(Clone, Copy, PartialEq, Eq)]
pub struct E2Gen;

impl TermGen for E2Gen {
    open spec fn in_dom(&self, m: int) -> bool {
        0 <= m
    }

    open spec fn spec_term(&self, m: int) -> (int, int) {
        spec_e2_ab(m)
    }

    fn term(&self, m: i128) -> (r: (i128, i128)) {
        e2_ab(m)
    }

    fn in_dom_at(&self, m: i128) -> (r: bool) {
        0 <= m
    }

    proof fn dom_closed(&self, m1: int, m2: int) {
    }
}

pub open spec fn spec_pi_ab(n: int) -> (int, int) {
    if n == 0 {
        (1, 0)
    } else if n == 1 {
        (4, 1)
    } else {
        ((n - 1) * (n - 1), 2 * (n - 1) + 1)
    }
}

pub fn pi_ab(n: i128) -> (r: (i128, i128))
    requires
        0 <= n <= 1000000000000000000,
    ensures
        (r.0 as int, r.1 as int) == spec_pi_ab(n as int),
{
    if n == 0 {
        (1, 0)
    } else if n == 1 {
        (4, 1)
    } else {
        let m = n - 1;
        assert(0 <= (m as int) * (m as int) <= 1000000000000000000000000000000000000int)
            by (nonlinear_arith)
            requires 1 <= m as int <= 1000000000000000000int,
        ;
        (m * m, 2 * m + 1)
    }
}

#[derive(Clone, Copy, PartialEq, Eq)]
pub struct PiGen;

impl TermGen for PiGen {
    open spec fn in_dom(&self, m: int) -> bool {
        0 <= m <= 1000000000000000000
    }

    open spec fn spec_term(&self, m: int) -> (int, int) {
        spec_pi_ab(m)
    }

    fn term(&self, m: i128) -> (r: (i128, i128)) {
        pi_ab(m)
    }

    fn in_dom_at(&self, m: i128) -> (r: bool) {
        0 <= m && m <= 1000000000000000000
    }

    proof fn dom_closed(&self, m1: int, m2: int) {
    }
}

pub open spec fn spec_pi2_ab(n: int) -> (int, int) {
    if n == 0 {
        (1, 0)
    } else if n == 1 {
        (1008, -168)
    } else {
        (
            -1100736 + n * (4054680 + n * (-5999178 + n * (4556445 + n * (-1873686 + (396225
                - 33750 * n) * n)))),
            -3264 + n * (6008 + n * (-3637 + 725 * n)),
        )
    }
}

pub fn pi2_ab(n: i128) -> (r: (i128, i128))
    requires
        0 <= n <= 100000,
    ensures
        (r.0 as int, r.1 as int) == spec_pi2_ab(n as int),
{
    if n == 0 {
        (1, 0)
    } else if n == 1 {
        (1008, -168)
    } else {
        let t5: i128 = 396225 - 33750 * n;
        assert(-337460377500000int <= (t5 as int) * (n as int) <= 32872500000int)
            by (nonlinear_arith)
            requires 2 <= n as int <= 100000int, -3374603775int <= t5 as int <= 328725int,
        ;
        let u5: i128 = t5 * n;
        let t4: i128 = -1873686 + u5;
        assert(-33746037937368600000int <= (n as int) * (t4 as int) <= 3287062631400000int)
            by (nonlinear_arith)
            requires 2 <= n as int <= 100000int,
                -337460379373686int <= t4 as int <= 32870626314int,
        ;
        let u4: i128 = n * t4;
        let t3: i128 = 4556445 + u4;
        assert(-3374603793736404355500000int <= (n as int) * (t3 as int)
            <= 328706263595644500000int) by (nonlinear_arith)
            requires 2 <= n as int <= 100000int,
                -33746037937364043555int <= t3 as int <= 3287062635956445int,
        ;
        let u3: i128 = n * t3;
        let t2: i128 = -5999178 + u3;
        assert(-337460379373640436149917800000int <= (n as int) * (t2 as int)
            <= 32870626359563850082200000int) by (nonlinear_arith)
            requires 2 <= n as int <= 100000int,
                -3374603793736404361499178int <= t2 as int <= 328706263595638500822int,
        ;
        let u2: i128 = n * t2;
        let t1: i128 = 4054680 + u2;
        assert(-33746037937364043614991374532000000int <= (n as int) * (t1 as int)
            <= 3287062635956385008625468000000int) by (nonlinear_arith)
            requires 2 <= n as int <= 100000int,
                -337460379373640436149913745320int <= t1 as int
                    <= 32870626359563850086254680int,
        ;
        let u1: i128 = n * t1;
        let a: i128 = -1100736 + u1;
        let s2: i128 = -3637 + 725 * n;
        assert(-218700000int <= (n as int) * (s2 as int) <= 7249636300000int)
            by (nonlinear_arith)
            requires 2 <= n as int <= 100000int, -2187int <= s2 as int <= 72496363int,
        ;
        let v2: i128 = n * s2;
        let s1: i128 = 6008 + v2;
        assert(-21869399200000int <= (n as int) * (s1 as int) <= 724963630600800000int)
            by (nonlinear_arith)
            requires 2 <= n as int <= 100000int,
                -218693992int <= s1 as int <= 7249636306008int,
        ;
        let v1: i128 = n * s1;
        let b: i128 = -3264 + v1;
        (a, b)
    }
}

#[derive(Clone, Copy, PartialEq, Eq)]
pub struct Pi2Gen;

impl TermGen for Pi2Gen {
    open spec fn in_dom(&self, m: int) -> bool {
        0 <= m <= 100000
    }

    open spec fn spec_term(&self, m: int) -> (int, int) {
        spec_pi2_ab(m)
    }

    fn term(&self, m: i128) -> (r: (i128, i128)) {
        pi2_ab(m)
    }

    fn in_dom_at(&self, m: i128) -> (r: bool) {
        0 <= m && m <= 100000
    }

    proof fn dom_closed(&self, m1: int, m2: int) {
    }
}

/// From `ln(z) = 2 artanh((z - 1)/(z + 1))`.
pub open spec fn spec_log2_ab(n: int) -> (int, int) {
    if n == 0 {
        (1, 0)
    } else if n == 1 {
        (2, 3)
    } else {
        (-((n - 1) * (n - 1)), 6 * n - 3)
    }
}

pub fn log2_ab(n: i128) -> (r: (i128, i128))
    requires
        0 <= n <= 1000000000000000000,
    ensures
        (r.0 as int, r.1 as int) == spec_log2_ab(n as int),
{
    if n == 0 {
        (1, 0)
    } else if n == 1 {
        (2, 3)
    } else {
        let m = n - 1;
        assert(0 <= (m as int) * (m as int) <= 1000000000000000000000000000000000000int)
            by (nonlinear_arith)
            requires 1 <= m as int <= 1000000000000000000int,
        ;
        (-(m * m), 6 * n - 3)
    }
}

#[derive(Clone, Copy, PartialEq, Eq)]
pub struct Log2Gen;

impl TermGen for Log2Gen {
    open spec fn in_dom(&self, m: int) -> bool {
        0 <= m <= 1000000000000000000
    }

    open spec fn spec_term(&self, m: int) -> (int, int) {
        spec_log2_ab(m)
    }

    fn term(&self, m: i128) -> (r: (i128, i128)) {
        log2_ab(m)
    }

    fn in_dom_at(&self, m: i128) -> (r: bool) {
        0 <= m && m <= 1000000000000000000
    }

    proof fn dom_closed(&self, m1: int, m2: int) {
    }
}

/// Accelerated by Apery, `zeta(2) = pi^2 / 6`.
pub open spec fn spec_zeta2_ab(n: int) -> (int, int) {
    if n == 0 {
        (1, 0)
    } else if n == 1 {
        (5, 3)
    } else {
        (((n - 1) * (n - 1)) * ((n - 1) * (n - 1)), 11 * n * (n - 1) + 3)
    }
}

pub fn zeta2_ab(n: i128) -> (r: (i128, i128))
    requires
        0 <= n <= 1000000000,
    ensures
        (r.0 as int, r.1 as int) == spec_zeta2_ab(n as int),
{
    if n == 0 {
        (1, 0)
    } else if n == 1 {
        (5, 3)
    } else {
        let p = n - 1;
        assert(1 <= (p as int) * (p as int) <= 1000000000000000000int) by (nonlinear_arith)
            requires 1 <= p as int <= 1000000000int,
        ;
        let m = p * p;
        assert(1 <= (m as int) * (m as int) <= 1000000000000000000000000000000000000int)
            by (nonlinear_arith)
            requires 1 <= m as int <= 1000000000000000000int,
        ;
        assert(1 <= (n as int) * (p as int) <= 1000000000000000000int) by (nonlinear_arith)
            requires 1 <= p as int <= 1000000000int, 2 <= n as int <= 1000000000int,
        ;
        assert(11int * ((n as int) * (p as int)) == 11int * (n as int) * (p as int))
            by (nonlinear_arith)
        ;
        (m * m, 11 * (n * p) + 3)
    }
}

#[derive(Clone, Copy, PartialEq, Eq)]
pub struct Zeta2Gen;

impl TermGen for Zeta2Gen {
    open spec fn in_dom(&self, m: int) -> bool {
        0 <= m <= 1000000000
    }

    open spec fn spec_term(&self, m: int) -> (int, int) {
        spec_zeta2_ab(m)
    }

    fn term(&self, m: i128) -> (r: (i128, i128)) {
        zeta2_ab(m)
    }

    fn in_dom_at(&self, m: i128) -> (r: bool) {
        0 <= m && m <= 1000000000
    }

    proof fn dom_closed(&self, m1: int, m2: int) {
    }
}

/// Accelerated by Apery, `zeta(3)`.
pub open spec fn spec_zeta3_ab(n: int) -> (int, int) {
    if n == 0 {
        (1, 0)
    } else if n == 1 {
        (6, 5)
    } else {
        (
            -((((n - 1) * (n - 1)) * ((n - 1) * (n - 1))) * ((n - 1) * (n - 1))),
            (2 * n - 1) * (17 * n * (n - 1) + 5),
        )
    }
}

pub fn zeta3_ab(n: i128) -> (r: (i128, i128))
    requires
        0 <= n <= 1000000,
    ensures
        (r.0 as int, r.1 as int) == spec_zeta3_ab(n as int),
{
    if n == 0 {
        (1, 0)
    } else if n == 1 {
        (6, 5)
    } else {
        let p = n - 1;
        assert(1 <= (p as int) * (p as int) <= 1000000000000int) by (nonlinear_arith)
            requires 1 <= p as int <= 1000000int,
        ;
        let m = p * p;
        assert(1 <= (m as int) * (m as int) <= 1000000000000000000000000int)
            by (nonlinear_arith)
            requires 1 <= m as int <= 1000000000000int,
        ;
        let mm = m * m;
        assert(1 <= (mm as int) * (m as int) <= 1000000000000000000000000000000000000int)
            by (nonlinear_arith)
            requires 1 <= m as int <= 1000000000000int,
                1 <= mm as int <= 1000000000000000000000000int,
        ;
        assert((mm as int) * (m as int) == (((n as int) - 1) * ((n as int) - 1) * (((n as int)
            - 1) * ((n as int) - 1))) * (((n as int) - 1) * ((n as int) - 1)))
            by (nonlinear_arith)
            requires
                m as int == ((n as int) - 1) * ((n as int) - 1),
                mm as int == (m as int) * (m as int),
        ;
        assert(1 <= (n as int) * (p as int) <= 1000000000000int) by (nonlinear_arith)
            requires 1 <= p as int <= 1000000int, 2 <= n as int <= 1000000int,
        ;
        let q = 17 * (n * p) + 5;
        assert((3int <= 2 * (n as int) - 1) && (2 * (n as int) - 1 <= 2000000int));
        assert(1 <= (2 * (n as int) - 1) * (q as int)
            <= 100000000000000000000int) by (nonlinear_arith)
            requires 3 <= 2 * (n as int) - 1 <= 2000000int, 22 <= q as int <= 17000000000005int,
        ;
        assert((2 * (n as int) - 1) * (q as int) == (2 * (n as int) - 1) * (17 * (n as int)
            * ((n as int) - 1) + 5)) by (nonlinear_arith)
            requires q as int == 17 * ((n as int) * ((n as int) - 1)) + 5,
        ;
        (-(mm * m), (2 * n - 1) * q)
    }
}

#[derive(Clone, Copy, PartialEq, Eq)]
pub struct Zeta3Gen;

impl TermGen for Zeta3Gen {
    open spec fn in_dom(&self, m: int) -> bool {
        0 <= m <= 1000000
    }

    open spec fn spec_term(&self, m: int) -> (int, int) {
        spec_zeta3_ab(m)
    }

    fn term(&self, m: i128) -> (r: (i128, i128)) {
        zeta3_ab(m)
    }

    fn in_dom_at(&self, m: i128) -> (r: bool) {
        0 <= m && m <= 1000000
    }

    proof fn dom_closed(&self, m1: int, m2: int) {
    }
}

} // verus!
