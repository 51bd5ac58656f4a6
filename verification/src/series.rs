//! Partial sums of a series with rational terms.
//!
//! A term source updates the current term in place from the previous one
//! and bounds the remaining error; the summation keeps an unreduced
//! running sum.

use vstd::prelude::*;

verus! {

use crate::bigint::{int_add, int_mul, int_double};
use crate::fractions::Frac;

/// A source of series terms. `term` turns the previous term held in the
/// fraction into the term of index `n`; `error` bounds what the tail after
/// index `n` can still contribute.
pub trait SeriesGen: Sized {
    spec fn spec_term(&self, n: int, prev: (int, int)) -> (int, int);

    spec fn spec_error(&self, n: int, curr: (int, int)) -> (int, int);

    fn term(&self, n: i128, curr: &mut Frac)
        requires
            n >= 0,
        ensures
            final(curr).pair() == self.spec_term(n as int, old(curr).pair()),
    ;

    fn error(&self, n: i128, curr: &Frac) -> (r: Frac)
        requires
            n >= 0,
        ensures
            r.pair() == self.spec_error(n as int, curr.pair()),
    ;
}

/// The geometric series of ratio one half: terms `1/2^n`. Its tail after
/// index `n` equals the current term exactly, which is the error bound.
pub struct HalfSeries;

impl SeriesGen for HalfSeries {
    open spec fn spec_term(&self, n: int, prev: (int, int)) -> (int, int) {
        if n == 0 {
            (1, 1)
        } else {
            (prev.0, 2 * prev.1)
        }
    }

    open spec fn spec_error(&self, n: int, curr: (int, int)) -> (int, int) {
        curr
    }

    fn term(&self, n: i128, curr: &mut Frac) {
        if n == 0 {
            *curr = Frac::from_i128(1, 1);
        } else {
            let dd = int_double(&curr.den);
            curr.den = dd;
        }
    }

    fn error(&self, n: i128, curr: &Frac) -> Frac {
        curr.clone()
    }
}

pub struct Series<U: SeriesGen> {
    pub n: i128,
    pub u: U,
    pub curr: Frac,
    pub sum: Frac,
}

impl<U: SeriesGen> Series<U> {
    /// Start a series at its first term: the term function applied at
    /// index zero seeds both the current term and the sum.
    pub fn from(u: U) -> (r: Self)
        ensures
            r.n == 0,
            r.u == u,
            r.curr.pair() == u.spec_term(0, (0int, 1int)),
            r.sum.pair() == u.spec_term(0, (0int, 1int)),
    {
        let mut seed = Frac::from_i128(0, 1);
        u.term(0, &mut seed);
        let first = seed.clone();
        Series { n: 0, u, curr: seed, sum: first }
    }

    /// The error bound after the current index.
    pub fn error(&self) -> (r: Frac)
        requires
            self.n >= 0,
        ensures
            r.pair() == self.u.spec_error(self.n as int, self.curr.pair()),
    {
        self.u.error(self.n, &self.curr)
    }

    /// Add the next term to the running sum, without reducing it.
    pub fn prop(&mut self)
        requires
            0 <= old(self).n < i128::MAX,
        ensures
            final(self).n == old(self).n + 1,
            final(self).u == old(self).u,
            final(self).curr.pair() == old(self).u.spec_term(
                old(self).n as int + 1,
                old(self).curr.pair(),
            ),
            final(self).sum.pair() == (
                old(self).sum.num_int() * final(self).curr.den_int()
                    + final(self).curr.num_int() * old(self).sum.den_int(),
                old(self).sum.den_int() * final(self).curr.den_int(),
            ),
    {
        self.n = self.n + 1;
        self.u.term(self.n, &mut self.curr);
        let num = int_add(
            &int_mul(&self.sum.num, &self.curr.den),
            &int_mul(&self.curr.num, &self.sum.den),
        );
        let den = int_mul(&self.sum.den, &self.curr.den);
        self.sum.num = num;
        self.sum.den = den;
    }
}

} // verus!
