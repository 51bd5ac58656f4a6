//! Continued logarithms: Gosper's binary expansion of a value at least one.
//!
//! Two operations drive the reduction: `theta` halves a value of at least
//! two and writes digit `1`; `iota` maps a value in `[1, 2)` to the
//! reciprocal of its fractional part and writes digit `0`. A rational
//! remainder runs to exhaustion; a bracketing pair emits a digit only when
//! both convergents qualify for the same operation.

use vstd::prelude::*;
use vstd::string::StrSliceExecFns;
use vstd::string::StringExecFns;

verus! {

use crate::bigint::{int_add, int_sub, int_is_even, int_half_even, int_double};
use crate::brackets::{KFrac, TermGen, Mat};
use crate::fractions::{Frac, at_least_one, at_least_two};
use crate::nums::{abs_i, gcd_int, lemma_half_quot, lemma_abs_mul_pos, lemma_div_exact_back};

/// The `iota` operation on a numerator/denominator pair:
/// `x -> 1/(x - 1)`, so `(n, d) -> (d, n - d)`.
pub open spec fn iota_pair(p: (int, int)) -> (int, int) {
    (p.1, p.0 - p.1)
}

/// The `theta` operation on a pair: `x -> x/2`, halving the numerator when
/// it is even and doubling the denominator otherwise.
pub open spec fn theta_pair(p: (int, int)) -> (int, int) {
    if p.0 % 2 == 0 {
        (p.0 / 2, p.1)
    } else {
        (p.0, 2 * p.1)
    }
}

/// Second component of the termination measure of a reduction: how many
/// halvings remain before the next `iota`.
pub open spec fn cl_qm(p: (int, int)) -> int {
    if p.1 == 0 {
        0
    } else {
        abs_i(p.0) / abs_i(p.1)
    }
}

/// The facts that drive a reduction step: the measure
/// `(abs numerator, cl_qm)` shrinks lexicographically, and the value stays
/// at least one until the expansion is exhausted.
pub proof fn lemma_cl_measure(n: int, d: int)
    requires
        at_least_one(n, d),
        d != 0,
    ensures
        n != 0,
        at_least_two(n, d) && n % 2 == 0 ==> abs_i(n / 2) < abs_i(n) && at_least_one(n / 2, d)
            && n / 2 == theta_pair((n, d)).0,
        at_least_two(n, d) && n % 2 != 0 ==> cl_qm((n, 2 * d)) < cl_qm((n, d)) && at_least_one(
            n,
            2 * d,
        ),
        !at_least_two(n, d) ==> (abs_i(d) < abs_i(n) || (n == d && cl_qm((d, n - d)) == 0
            && cl_qm((n, d)) >= 1 && abs_i(d) == abs_i(n))),
        !at_least_two(n, d) ==> (at_least_one(d, n - d) || n - d == 0),
{
    if d > 0 {
        assert(n >= d >= 1);
    } else {
        assert(n <= d <= -1);
    }
    if at_least_two(n, d) {
        if n % 2 == 0 {
            vstd::arithmetic::div_mod::lemma_fundamental_div_mod(n, 2);
            assert(n == 2 * (n / 2));
            assert(abs_i(n / 2) < abs_i(n));
        } else {
            lemma_abs_mul_pos(d, 2);
            assert(abs_i(2 * d) == 2 * abs_i(d)) by {
                assert(2 * d == d * 2);
                assert(abs_i(d) * 2 == 2 * abs_i(d));
            }
            assert(abs_i(n) >= 2 * abs_i(d));
            lemma_half_quot(abs_i(n), abs_i(d));
        }
    } else {
        if d > 0 {
            // d <= n < 2 d
            if n == d {
                vstd::arithmetic::div_mod::lemma_div_by_self(d);
                assert(cl_qm((n, d)) == 1);
            } else {
                assert(abs_i(d) < abs_i(n));
            }
        } else {
            // 2 d < n <= d < 0
            if n == d {
                vstd::arithmetic::div_mod::lemma_div_by_self(-d);
                assert(abs_i(n) == -n && abs_i(d) == -d);
                assert(cl_qm((n, d)) == 1);
            } else {
                assert(abs_i(d) < abs_i(n));
            }
        }
    }
}

/// The complete continued-logarithm expansion of `n/d`: the digit tape and
/// the exhausted final pair. Defined for values at least one; a reduction
/// of a rational always terminates with a zero denominator.
pub open spec fn cl_run(n: int, d: int) -> (Seq<u8>, int, int)
    decreases abs_i(n), cl_qm((n, d)),
    when at_least_one(n, d) || d == 0
{
    if d == 0 {
        (Seq::<u8>::empty(), n, d)
    } else if at_least_two(n, d) {
        proof {
            lemma_cl_measure(n, d);
        }
        if n % 2 == 0 {
            let rest = cl_run(n / 2, d);
            (seq![1u8] + rest.0, rest.1, rest.2)
        } else {
            let rest = cl_run(n, 2 * d);
            (seq![1u8] + rest.0, rest.1, rest.2)
        }
    } else {
        proof {
            lemma_cl_measure(n, d);
        }
        let rest = cl_run(d, n - d);
        (seq![0u8] + rest.0, rest.1, rest.2)
    }
}

/// The operations a remainder must offer to drive a continued-logarithm
/// reduction. Each implementation fixes, through its relation functions,
/// exactly what the operations do to its state.
pub trait KLogOps: Sized {
    /// The gcd reduction divides by a common gcd: not every state admits it.
    spec fn gcd_ok(&self) -> bool;

    spec fn iota_rel(pre: Self, post: Self) -> bool;

    spec fn theta_rel(pre: Self, post: Self) -> bool;

    spec fn gcd_rel(pre: Self, post: Self) -> bool;

    /// The operation for digit `0`: `x -> 1/(x - 1)`.
    fn iota(&mut self)
        ensures
            Self::iota_rel(*old(self), *final(self)),
    ;

    /// The operation for digit `1`: `x -> x/2`.
    fn theta(&mut self)
        ensures
            Self::theta_rel(*old(self), *final(self)),
    ;

    /// Reduce the remaining fraction(s) by a gcd; costly.
    fn gcd_div(&mut self)
        requires
            old(self).gcd_ok(),
        ensures
            Self::gcd_rel(*old(self), *final(self)),
    ;
}

impl KLogOps for Frac {
    open spec fn gcd_ok(&self) -> bool {
        self.num_int() != 0 || self.den_int() != 0
    }

    open spec fn iota_rel(pre: Self, post: Self) -> bool {
        post.pair() == iota_pair(pre.pair())
    }

    open spec fn theta_rel(pre: Self, post: Self) -> bool {
        post.pair() == theta_pair(pre.pair())
    }

    open spec fn gcd_rel(pre: Self, post: Self) -> bool {
        let g = gcd_int(pre.num_int(), pre.den_int());
        g >= 1 && post.num_int() * g == pre.num_int() && post.den_int() * g == pre.den_int()
    }

    fn iota(&mut self) {
        let t = int_sub(&self.num, &self.den);
        self.num = t;
        self.inv();
    }

    fn theta(&mut self) {
        if int_is_even(&self.num) {
            let h = int_half_even(&self.num);
            proof {
                crate::nums::lemma_div_exact_back(self.num_int(), crate::bigint::int_of(h), 2);
            }
            self.num = h;
        } else {
            self.den = int_double(&self.den);
        }
    }

    fn gcd_div(&mut self) {
        Frac::gcd_div(self);
    }
}

/// A continued-logarithm extractor: the digit tape, the remainder it
/// reduces, and whether the expansion has run to exhaustion.
pub struct KLog<T: KLogOps> {
    pub tape: Vec<u8>,
    pub remainder: T,
    pub done: bool,
}

/// Every tape digit is a binary symbol.
pub open spec fn tape_wf(t: Seq<u8>) -> bool {
    forall|i: int| 0 <= i < t.len() ==> (t[i] == 0 || t[i] == 1)
}

/// The tape digits as glyphs, with a terminal marker after an exhausted
/// expansion.
pub open spec fn tape_glyphs(t: Seq<u8>) -> Seq<char> {
    t.map_values(|d: u8| if d == 0 { '\u{25cb}' } else { '\u{25b3}' })
}

/// Run-length shorthand: the count of consecutive `1`s before each `0`,
/// a trailing run without a closing `0` included; `g` counts the `1`s
/// already seen.
pub open spec fn rle_from(t: Seq<u8>, g: int) -> Seq<u128>
    decreases t.len(),
{
    if t.len() == 0 {
        if g > 0 {
            seq![g as u128]
        } else {
            Seq::<u128>::empty()
        }
    } else if t[0] == 1 {
        rle_from(t.drop_first(), g + 1)
    } else {
        seq![g as u128] + rle_from(t.drop_first(), 0)
    }
}

impl<T: KLogOps> KLog<T> {
    /// The tape digits as a string of `0`s and `1`s.
    pub fn tape_str(&self) -> (r: String)
        requires
            tape_wf(self.tape@),
        ensures
            r@ == tape_chars(self.tape@),
    {
        let mut out = String::new();
        let mut i: usize = 0;
        while i < self.tape.len()
            invariant
                i <= self.tape@.len(),
                tape_wf(self.tape@),
                out@ == tape_chars(self.tape@.take(i as int)),
            decreases self.tape@.len() - i,
        {
            if self.tape[i] == 0 {
                out.append("0");
            } else {
                out.append("1");
            }
            proof {
                reveal_strlit("0");
                reveal_strlit("1");
                assert(out@ =~= tape_chars(self.tape@.take(i as int + 1)));
            }
            i = i + 1;
        }
        proof {
            assert(self.tape@.take(self.tape@.len() as int) =~= self.tape@);
        }
        out
    }

    /// The expansion as glyphs, with a terminal marker if it is exhausted.
    pub fn pretty(&self) -> (r: String)
        requires
            tape_wf(self.tape@),
        ensures
            r@ == tape_glyphs(self.tape@) + (if self.done {
                seq!['\u{25a1}']
            } else {
                Seq::<char>::empty()
            }),
    {
        let mut out = String::new();
        let mut i: usize = 0;
        while i < self.tape.len()
            invariant
                i <= self.tape@.len(),
                tape_wf(self.tape@),
                out@ == tape_glyphs(self.tape@.take(i as int)),
            decreases self.tape@.len() - i,
        {
            if self.tape[i] == 0 {
                out.append("\u{25cb}");
            } else {
                out.append("\u{25b3}");
            }
            proof {
                reveal_strlit("\u{25cb}");
                reveal_strlit("\u{25b3}");
                assert(out@ =~= tape_glyphs(self.tape@.take(i as int + 1)));
            }
            i = i + 1;
        }
        proof {
            assert(self.tape@.take(self.tape@.len() as int) =~= self.tape@);
        }
        if self.done {
            out.append("\u{25a1}");
            proof {
                reveal_strlit("\u{25a1}");
                assert(out@ =~= tape_glyphs(self.tape@) + seq!['\u{25a1}']);
            }
        }
        out
    }

    /// The expansion in run-length shorthand.
    pub fn gen_tape(&self) -> (r: Vec<u128>)
        ensures
            r@ == rle_from(self.tape@, 0),
    {
        let mut out: Vec<u128> = Vec::new();
        let mut g: u128 = 0;
        let mut i: usize = 0;
        proof {
            assert(self.tape@.skip(0) =~= self.tape@);
            assert(Seq::<u128>::empty() + rle_from(self.tape@, 0) =~= rle_from(self.tape@, 0));
        }
        while i < self.tape.len()
            invariant
                i <= self.tape@.len(),
                g as int <= i as int,
                rle_from(self.tape@, 0) == out@ + rle_from(self.tape@.skip(i as int), g as int),
            decreases self.tape@.len() - i,
        {
            let ghost opre = out@;
            let ghost gpre = g;
            proof {
                assert(self.tape@.skip(i as int)[0] == self.tape@[i as int]);
                assert(self.tape@.skip(i as int).drop_first() =~= self.tape@.skip(i as int + 1));
            }
            if self.tape[i] == 1 {
                g = g + 1;
            } else {
                out.push(g);
                g = 0;
                proof {
                    assert(opre + (seq![gpre] + rle_from(self.tape@.skip(i as int + 1), 0))
                        =~= (opre + seq![gpre]) + rle_from(self.tape@.skip(i as int + 1), 0));
                    assert(out@ =~= opre + seq![gpre]);
                }
            }
            i = i + 1;
        }
        proof {
            assert(self.tape@.skip(self.tape@.len() as int) =~= Seq::<u8>::empty());
        }
        if g > 0 {
            let ghost opre = out@;
            out.push(g);
            proof {
                assert(rle_from(Seq::<u8>::empty(), g as int) =~= seq![g]);
                assert(out@ =~= opre + seq![g]);
            }
        } else {
            proof {
                assert(rle_from(Seq::<u8>::empty(), g as int) =~= Seq::<u128>::empty());
                assert(out@ + Seq::<u128>::empty() =~= out@);
            }
        }
        out
    }

    /// Start an extraction from a gcd-reduced remainder.
    pub fn from(f: T) -> (r: Self)
        requires
            f.gcd_ok(),
        ensures
            r.tape@ == Seq::<u8>::empty(),
            !r.done,
            T::gcd_rel(f, r.remainder),
    {
        let mut f = f;
        f.gcd_div();
        KLog { tape: Vec::new(), remainder: f, done: false }
    }
}

impl KLog<Frac> {
    pub fn from_i128(a: i128, b: i128) -> (r: Self)
        requires
            a != 0 || b != 0,
        ensures
            r.tape@ == Seq::<u8>::empty(),
            !r.done,
            gcd_int(a as int, b as int) >= 1,
            r.remainder.num_int() * gcd_int(a as int, b as int) == a as int,
            r.remainder.den_int() * gcd_int(a as int, b as int) == b as int,
    {
        KLog::from(Frac::from_i128(a, b))
    }

    pub fn from_int(a: rug::Integer, b: rug::Integer) -> (r: Self)
        requires
            crate::bigint::int_of(a) != 0 || crate::bigint::int_of(b) != 0,
        ensures
            r.tape@ == Seq::<u8>::empty(),
            !r.done,
            ({
                let g = gcd_int(crate::bigint::int_of(a), crate::bigint::int_of(b));
                g >= 1 && r.remainder.num_int() * g == crate::bigint::int_of(a)
                    && r.remainder.den_int() * g == crate::bigint::int_of(b)
            }),
    {
        KLog::from(Frac::from_int(a, b))
    }

    /// One reduction step on a value at least one: halve it if it is at
    /// least two (digit `1`), else take the reciprocal of the fractional
    /// part (digit `0`).
    pub fn red1(&mut self)
        requires
            at_least_one(old(self).remainder.num_int(), old(self).remainder.den_int()),
        ensures
            final(self).done == old(self).done,
            ({
                let p = old(self).remainder.pair();
                if at_least_two(p.0, p.1) {
                    final(self).tape@ == old(self).tape@.push(1u8) && final(self).remainder.pair()
                        == theta_pair(p)
                } else {
                    final(self).tape@ == old(self).tape@.push(0u8) && final(self).remainder.pair()
                        == iota_pair(p)
                }
            }),
    {
        if self.remainder.atleast2() {
            self.remainder.theta();
            self.tape.push(1);
        } else {
            self.remainder.iota();
            self.tape.push(0);
        }
    }

    /// Reduce a finite rational of value at least one to exhaustion: the
    /// tape is extended by exactly its continued-logarithm expansion.
    pub fn red(&mut self)
        requires
            at_least_one(old(self).remainder.num_int(), old(self).remainder.den_int()),
        ensures
            ({
                let run = cl_run(old(self).remainder.num_int(), old(self).remainder.den_int());
                final(self).tape@ == old(self).tape@ + run.0 && final(self).remainder.pair() == (
                    run.1,
                    run.2,
                ) && final(self).remainder.den_int() == 0 && final(self).done
            }),
    {
        let ghost run0 = cl_run(old(self).remainder.num_int(), old(self).remainder.den_int());
        let ghost tape0 = self.tape@;
        let ghost l0 = tape0.len() as int;
        let mut fin = self.remainder.finite();
        while fin
            invariant
                fin == (self.remainder.den_int() != 0),
                tape0 == old(self).tape@,
                run0 == cl_run(old(self).remainder.num_int(), old(self).remainder.den_int()),
                at_least_one(self.remainder.num_int(), self.remainder.den_int())
                    || self.remainder.den_int() == 0,
                tape0.len() <= self.tape@.len(),
                self.tape@.subrange(0, l0) == tape0,
                l0 == tape0.len(),
                self.done == old(self).done,
                run0.0 == self.tape@.skip(l0) + cl_run(self.remainder.num_int(),
                    self.remainder.den_int()).0,
                run0.1 == cl_run(self.remainder.num_int(), self.remainder.den_int()).1,
                run0.2 == cl_run(self.remainder.num_int(), self.remainder.den_int()).2,
            decreases abs_i(self.remainder.num_int()), cl_qm(self.remainder.pair()),
        {
            let ghost tpre = self.tape@;
            let ghost cur = self.remainder.pair();
            proof {
                lemma_cl_measure(cur.0, cur.1);
            }
            self.red1();
            proof {
                let dgt: u8 = if at_least_two(cur.0, cur.1) {
                    1u8
                } else {
                    0u8
                };
                assert(self.tape@ == tpre.push(dgt));
                assert(self.tape@.subrange(0, l0) =~= tape0);
                assert(self.tape@.skip(l0) =~= tpre.skip(l0) + seq![dgt]);
                assert(cl_run(cur.0, cur.1).0 == seq![dgt] + cl_run(self.remainder.num_int(),
                    self.remainder.den_int()).0);
                assert(tpre.skip(l0) + (seq![dgt] + cl_run(self.remainder.num_int(),
                    self.remainder.den_int()).0) =~= (tpre.skip(l0) + seq![dgt]) + cl_run(
                    self.remainder.num_int(), self.remainder.den_int()).0);
            }
            fin = self.remainder.finite();
        }
        proof {
            assert(cl_run(self.remainder.num_int(), self.remainder.den_int()).0
                == Seq::<u8>::empty());
            assert(run0.0 =~= self.tape@.skip(l0));
            assert(self.tape@ =~= tape0 + run0.0);
        }
        self.done = true;
    }

    /// Replay a tape body backwards from a seed: `0` inverts and adds the
    /// denominator, `1` doubles the numerator; the result is gcd-reduced.
    /// An unrecognized symbol yields no value.
    fn reconstruct(x: Frac, s: &str) -> (r: Option<Frac>)
        requires
            x.num_int() >= 1,
            x.den_int() >= 0,
        ensures
            ({
                let v = recon_fold(x.pair(), s@);
                match r {
                    Some(y) => all_syms_ok(s@) && y.pair() == reduced_pair(v),
                    None => !all_syms_ok(s@),
                }
            }),
    {
        let ghost p0 = x.pair();
        let mut x = x;
        let len = s.unicode_len();
        let mut i = len;
        proof {
            assert(s@.take(len as int) =~= s@);
        }
        while i > 0
            invariant
                i <= len,
                len == s@.len(),
                p0.0 >= 1,
                p0.1 >= 0,
                x.num_int() >= 1,
                x.den_int() >= 0,
                forall|j: int| i <= j < len ==> cl_sym_ok(s@[j]),
                recon_fold(p0, s@) == recon_fold(x.pair(), s@.take(i as int)),
            decreases i,
        {
            let ghost xpre = x.pair();
            i = i - 1;
            let c = s.get_char(i);
            if c == '0' {
                x.inv();
                let t = int_add(&x.num, &x.den);
                x.num = t;
            } else if c == '1' {
                let t = int_double(&x.num);
                x.num = t;
            } else {
                return None;
            }
            proof {
                assert(s@.take(i as int + 1).last() == s@[i as int]);
                assert(s@.take(i as int + 1).drop_last() =~= s@.take(i as int));
                assert(x.pair() == recon_step(xpre, s@[i as int]));
            }
        }
        proof {
            assert(s@.take(0) =~= Seq::<char>::empty());
            assert(recon_fold(p0, s@) == x.pair());
            lemma_recon_fold_pos(p0, s@);
        }
        x.gcd_div();
        proof {
            let v = recon_fold(p0, s@);
            let g = gcd_int(v.0, v.1);
            lemma_div_exact_back(v.0, x.num_int(), g);
            lemma_div_exact_back(v.1, x.den_int(), g);
        }
        Some(x)
    }

    /// Parse a continued-logarithm tape string, most significant symbol
    /// last, into the rational interval it determines. A final `0` closes
    /// the expansion: both ends coincide. A final `1` is an incomplete
    /// expansion: the two ends come from the two extreme seeds.
    pub fn parse(input: String) -> (r: Option<(Frac, Frac)>)
        ensures
            ({
                let s = input@;
                if s.len() == 0 {
                    r is None
                } else if s.last() == '0' {
                    match r {
                        Some(pair) => all_syms_ok(s.drop_last()) && ({
                            let v = recon_fold((1int, 1int), s.drop_last());
                            pair.0.pair() == reduced_pair(v) && pair.1.pair() == reduced_pair(v)
                        }),
                        None => !all_syms_ok(s.drop_last()),
                    }
                } else if s.last() == '1' {
                    match r {
                        Some(pair) => all_syms_ok(s.drop_last()) && pair.0.pair() == reduced_pair(
                            recon_fold((1int, 0int), s.drop_last()),
                        ) && pair.1.pair() == reduced_pair(
                            recon_fold((2int, 1int), s.drop_last()),
                        ),
                        None => !all_syms_ok(s.drop_last()),
                    }
                } else {
                    r is None
                }
            }),
    {
        let s = input.as_str();
        let len = s.unicode_len();
        if len == 0 {
            return None;
        }
        let last = s.get_char(len - 1);
        let prefix = s.substring_char(0, len - 1);
        proof {
            assert(prefix@ =~= input@.drop_last());
        }
        if last == '0' {
            match Self::reconstruct(Frac::from_i128(1, 1), prefix) {
                Some(rec) => {
                    let twin = rec.clone();
                    Some((twin, rec))
                },
                None => None,
            }
        } else if last == '1' {
            let x1 = Frac::from_i128(1, 0);
            let x2 = Frac::from_i128(2, 1);
            match Self::reconstruct(x1, prefix) {
                Some(y1) => match Self::reconstruct(x2, prefix) {
                    Some(y2) => Some((y1, y2)),
                    None => None,
                },
                None => None,
            }
        } else {
            None
        }
    }
}

/// `iota` applied to both convergents of a bracket state.
pub open spec fn cl_iota_state(s: Mat) -> Mat {
    (s.2, s.3, s.0 - s.2, s.1 - s.3)
}

/// `theta` applied to both convergents: halve the numerators when both
/// are even, else double the denominators.
pub open spec fn cl_theta_state(s: Mat) -> Mat {
    if s.0 % 2 == 0 && s.1 % 2 == 0 {
        (s.0 / 2, s.1 / 2, s.2, s.3)
    } else {
        (s.0, s.1, 2 * s.2, 2 * s.3)
    }
}

impl<G: TermGen> KLogOps for KFrac<G> {
    open spec fn gcd_ok(&self) -> bool {
        self.state() != (0int, 0int, 0int, 0int)
    }

    open spec fn iota_rel(pre: Self, post: Self) -> bool {
        post.gen() == pre.gen() && post.n == pre.n && post.state() == cl_iota_state(pre.state())
    }

    open spec fn theta_rel(pre: Self, post: Self) -> bool {
        post.gen() == pre.gen() && post.n == pre.n && post.state() == cl_theta_state(pre.state())
    }

    open spec fn gcd_rel(pre: Self, post: Self) -> bool {
        let g = crate::brackets::four_gcd(pre.state());
        post.gen() == pre.gen() && post.n == pre.n && g >= 1 && post.state().0 * g
            == pre.state().0 && post.state().1 * g == pre.state().1 && post.state().2 * g
            == pre.state().2 && post.state().3 * g == pre.state().3
    }

    fn iota(&mut self) {
        let t1 = int_sub(&self.frac1.num, &self.frac1.den);
        self.frac1.num = t1;
        let t2 = int_sub(&self.frac2.num, &self.frac2.den);
        self.frac2.num = t2;
        self.frac1.inv();
        self.frac2.inv();
    }

    fn theta(&mut self) {
        if int_is_even(&self.frac1.num) && int_is_even(&self.frac2.num) {
            let h1 = int_half_even(&self.frac1.num);
            let h2 = int_half_even(&self.frac2.num);
            proof {
                lemma_div_exact_back(self.frac1.num_int(), crate::bigint::int_of(h1), 2);
                lemma_div_exact_back(self.frac2.num_int(), crate::bigint::int_of(h2), 2);
            }
            self.frac1.num = h1;
            self.frac2.num = h2;
        } else {
            self.frac1.den = int_double(&self.frac1.den);
            self.frac2.den = int_double(&self.frac2.den);
        }
    }

    fn gcd_div(&mut self) {
        KFrac::gcd_div(self);
    }
}

/// The observable state of a bracket-driven continued-logarithm extractor.
pub type ClView = (Seq<u8>, int, Mat);

/// The legal moves of a bracket-driven continued-logarithm extractor.
pub enum ClStep {
    EmitOne,
    EmitZero,
    Advance,
    Reduce,
}

/// Both convergents are at least two: the halving digit is certified.
pub open spec fn cl_can_emit_one(s: Mat) -> bool {
    at_least_two(s.0, s.2) && at_least_two(s.1, s.3)
}

/// Both convergents lie in `[1, 2)`: the reciprocal digit is certified.
pub open spec fn cl_can_emit_zero(s: Mat) -> bool {
    !at_least_two(s.0, s.2) && !at_least_two(s.1, s.3) && at_least_one(s.0, s.2) && at_least_one(
        s.1,
        s.3,
    )
}

pub open spec fn cl_step_ok<G: TermGen>(g: G, v: ClView, op: ClStep) -> bool {
    match op {
        ClStep::EmitOne => cl_can_emit_one(v.2),
        ClStep::EmitZero => cl_can_emit_zero(v.2),
        ClStep::Advance => g.in_dom(v.1 + 1),
        ClStep::Reduce => v.2 != (0int, 0int, 0int, 0int),
    }
}

pub open spec fn cl_step<G: TermGen>(g: G, v: ClView, op: ClStep) -> ClView {
    match op {
        ClStep::EmitOne => (v.0.push(1u8), v.1, cl_theta_state(v.2)),
        ClStep::EmitZero => (v.0.push(0u8), v.1, cl_iota_state(v.2)),
        ClStep::Advance => (v.0, v.1 + 1, crate::brackets::mat_mul(
            v.2,
            crate::brackets::step_mat(g, v.1 + 1),
        )),
        ClStep::Reduce => (v.0, v.1, crate::regular::reduce_state(v.2)),
    }
}

pub open spec fn cl_steps_ok<G: TermGen>(g: G, v: ClView, ops: Seq<ClStep>) -> bool
    decreases ops.len(),
{
    ops.len() == 0 || (cl_step_ok(g, v, ops[0]) && cl_steps_ok(
        g,
        cl_step(g, v, ops[0]),
        ops.drop_first(),
    ))
}

pub open spec fn cl_steps<G: TermGen>(g: G, v: ClView, ops: Seq<ClStep>) -> ClView
    decreases ops.len(),
{
    if ops.len() == 0 {
        v
    } else {
        cl_steps(g, cl_step(g, v, ops[0]), ops.drop_first())
    }
}

/// `b` is reachable from `a` by guarded continued-logarithm moves alone:
/// every digit beyond `a`'s tape was certified by both convergents.
pub open spec fn cl_reachable<G: TermGen>(g: G, a: ClView, b: ClView) -> bool {
    exists|ops: Seq<ClStep>| cl_steps_ok(g, a, ops) && b == cl_steps(g, a, ops)
}

pub proof fn lemma_cl_ops_concat<G: TermGen>(g: G, v: ClView, ops1: Seq<ClStep>, ops2: Seq<
    ClStep,
>)
    requires
        cl_steps_ok(g, v, ops1),
        cl_steps_ok(g, cl_steps(g, v, ops1), ops2),
    ensures
        cl_steps_ok(g, v, ops1 + ops2),
        cl_steps(g, v, ops1 + ops2) == cl_steps(g, cl_steps(g, v, ops1), ops2),
    decreases ops1.len(),
{
    if ops1.len() == 0 {
        assert(ops1 + ops2 =~= ops2);
    } else {
        let w = cl_step(g, v, ops1[0]);
        lemma_cl_ops_concat(g, w, ops1.drop_first(), ops2);
        assert((ops1 + ops2).drop_first() =~= ops1.drop_first() + ops2);
    }
}

pub proof fn lemma_cl_reach_refl<G: TermGen>(g: G, v: ClView)
    ensures
        cl_reachable(g, v, v),
{
    let ops = Seq::<ClStep>::empty();
    assert(cl_steps_ok(g, v, ops) && v == cl_steps(g, v, ops));
}

pub proof fn lemma_cl_reach_trans<G: TermGen>(g: G, a: ClView, b: ClView, c: ClView)
    requires
        cl_reachable(g, a, b),
        cl_reachable(g, b, c),
    ensures
        cl_reachable(g, a, c),
{
    let ops1 = choose|ops: Seq<ClStep>| cl_steps_ok(g, a, ops) && b == cl_steps(g, a, ops);
    let ops2 = choose|ops: Seq<ClStep>| cl_steps_ok(g, b, ops) && c == cl_steps(g, b, ops);
    lemma_cl_ops_concat(g, a, ops1, ops2);
    assert(cl_steps_ok(g, a, ops1 + ops2) && c == cl_steps(g, a, ops1 + ops2));
}

pub proof fn lemma_cl_reach_step<G: TermGen>(g: G, v: ClView, op: ClStep)
    requires
        cl_step_ok(g, v, op),
    ensures
        cl_reachable(g, v, cl_step(g, v, op)),
{
    let ops = seq![op];
    let w = cl_step(g, v, op);
    let rest = ops.drop_first();
    assert(rest =~= Seq::<ClStep>::empty());
    assert(cl_steps_ok(g, w, rest));
    assert(cl_steps(g, w, rest) == w);
    assert(ops[0] == op);
    assert(cl_steps_ok(g, v, ops));
    assert(cl_steps(g, v, ops) == w);
}

pub proof fn lemma_cl_reach_advances<G: TermGen>(g: G, v: ClView, k: nat)
    requires
        forall|m: int| v.1 < m <= v.1 + k ==> g.in_dom(m),
    ensures
        cl_reachable(g, v, (v.0, v.1 + k, crate::brackets::advanced(v.2, g, v.1, k))),
    decreases k,
{
    if k == 0 {
        assert(crate::brackets::advanced(v.2, g, v.1, 0nat) == v.2);
        lemma_cl_reach_refl(g, v);
        assert((v.0, v.1 + 0, crate::brackets::advanced(v.2, g, v.1, 0nat)) == v);
    } else {
        lemma_cl_reach_advances(g, v, (k - 1) as nat);
        let w = (v.0, v.1 + (k - 1) as nat, crate::brackets::advanced(v.2, g, v.1, (k - 1) as nat));
        assert(g.in_dom(w.1 + 1));
        lemma_cl_reach_step(g, w, ClStep::Advance);
        assert(cl_step(g, w, ClStep::Advance) == (v.0, v.1 + k, crate::brackets::advanced(
            v.2, g, v.1, k)));
        lemma_cl_reach_trans(g, v, w, (v.0, v.1 + k, crate::brackets::advanced(v.2, g, v.1, k)));
    }
}

proof fn lemma_cl_steps_tape_prefix<G: TermGen>(g: G, v: ClView, ops: Seq<ClStep>)
    requires
        cl_steps_ok(g, v, ops),
    ensures
        v.0.is_prefix_of(cl_steps(g, v, ops).0),
    decreases ops.len(),
{
    if ops.len() == 0 {
        assert(v.0.is_prefix_of(v.0));
    } else {
        let w = cl_step(g, v, ops[0]);
        lemma_cl_steps_tape_prefix(g, w, ops.drop_first());
        assert(v.0.is_prefix_of(w.0));
        let e = cl_steps(g, v, ops).0;
        assert(w.0.is_prefix_of(e));
        assert(v.0 =~= e.subrange(0, v.0.len() as int));
    }
}

/// The tape is append-only: whatever states the extractor moves through,
/// digits once emitted stay in place.
pub proof fn lemma_cl_reachable_tape_prefix<G: TermGen>(g: G, a: ClView, b: ClView)
    requires
        cl_reachable(g, a, b),
    ensures
        a.0.is_prefix_of(b.0),
{
    let ops = choose|ops: Seq<ClStep>| cl_steps_ok(g, a, ops) && b == cl_steps(g, a, ops);
    lemma_cl_steps_tape_prefix(g, a, ops);
}

/// The agreement guard: while the two convergents disagree on which
/// operation applies, no legal move emits a digit — the tape can only stay
/// as it is while the bracket advances or is rescaled.
pub proof fn lemma_cl_disagreement_blocks_emission<G: TermGen>(g: G, v: ClView, op: ClStep)
    requires
        !cl_can_emit_one(v.2),
        !cl_can_emit_zero(v.2),
        cl_step_ok(g, v, op),
    ensures
        cl_step(g, v, op).0 == v.0,
        !(op is EmitOne),
        !(op is EmitZero),
{
}

impl<G: TermGen> KLog<KFrac<G>> {
    pub open spec fn cl_view(&self) -> ClView {
        (self.tape@, self.remainder.n as int, self.remainder.state())
    }

    /// One guarded step: emit `1` when both convergents are at least two,
    /// emit `0` when both lie in `[1, 2)`; on any disagreement the digit
    /// cannot be certified, so advance the bracket `ratio` steps instead.
    pub fn red1(&mut self, ratio: usize) -> (r: bool)
        requires
            old(self).remainder.n >= 0,
            (old(self).remainder.n as int) + crate::regular::prop_window(ratio)
                <= i128::MAX as int,
            forall|m: int|
                (old(self).remainder.n as int) < m <= (old(self).remainder.n as int)
                    + crate::regular::prop_window(ratio) ==> old(self).remainder.gen().in_dom(m),
        ensures
            final(self).remainder.gen() == old(self).remainder.gen(),
            final(self).done == old(self).done,
            cl_reachable(old(self).remainder.gen(), old(self).cl_view(), final(self).cl_view()),
            ({
                let s = old(self).remainder.state();
                let n0 = old(self).remainder.n as int;
                let gn = old(self).remainder.gen();
                if cl_can_emit_one(s) {
                    r && final(self).cl_view() == cl_step(gn, old(self).cl_view(), ClStep::EmitOne)
                } else if cl_can_emit_zero(s) {
                    r && final(self).cl_view() == cl_step(
                        gn,
                        old(self).cl_view(),
                        ClStep::EmitZero,
                    )
                } else {
                    !r && final(self).tape@ == old(self).tape@ && final(self).remainder.n == n0
                        + ratio as int && final(self).remainder.state()
                        == crate::brackets::advanced(s, gn, n0, ratio as nat)
                }
            }),
    {
        let s2 = self.remainder.atleast2();
        if s2.0 && s2.1 {
            self.remainder.theta();
            self.tape.push(1);
            proof {
                lemma_cl_reach_step(old(self).remainder.gen(), old(self).cl_view(),
                    ClStep::EmitOne);
            }
            true
        } else {
            let s1 = self.remainder.atleast1();
            if !s2.0 && !s2.1 && s1.0 && s1.1 {
                self.remainder.iota();
                self.tape.push(0);
                proof {
                    lemma_cl_reach_step(old(self).remainder.gen(), old(self).cl_view(),
                        ClStep::EmitZero);
                }
                true
            } else {
                let mut i: usize = 0;
                while i < ratio
                    invariant
                        i <= ratio,
                        old(self).remainder.n >= 0,
                        (old(self).remainder.n as int) + crate::regular::prop_window(ratio)
                            <= i128::MAX as int,
                        forall|m: int|
                            (old(self).remainder.n as int) < m <= (old(self).remainder.n as int)
                                + crate::regular::prop_window(ratio) ==> old(
                                self,
                            ).remainder.gen().in_dom(m),
                        self.remainder.gen() == old(self).remainder.gen(),
                        self.remainder.n == old(self).remainder.n + i,
                        self.remainder.state() == crate::brackets::advanced(
                            old(self).remainder.state(), old(self).remainder.gen(),
                            old(self).remainder.n as int, i as nat),
                        self.tape@ == old(self).tape@,
                        self.done == old(self).done,
                    decreases ratio - i,
                {
                    self.remainder.prop();
                    i = i + 1;
                }
                proof {
                    lemma_cl_reach_advances(old(self).remainder.gen(), old(self).cl_view(),
                        ratio as nat);
                }
                false
            }
        }
    }

    /// Produce `new_digits` further digits: first take every digit the
    /// bracket already certifies, then advance by the estimated need in one
    /// batched call, reduce, and extract with small advances on each
    /// disagreement. The driver stops with `StepLimit` at the machine's or
    /// the generator's index limit.
    pub fn red(&mut self, new_digits: usize, ratio: Option<usize>) -> (r: Result<
        (),
        crate::regular::RedError,
    >)
        requires
            old(self).remainder.n >= 0,
            old(self).tape@.len() + new_digits <= usize::MAX as int,
            at_least_one(old(self).remainder.state().0, old(self).remainder.state().2)
                || at_least_one(old(self).remainder.state().1, old(self).remainder.state().3),
            old(self).remainder.state().2 != 0 || old(self).remainder.state().3 != 0,
        ensures
            final(self).remainder.gen() == old(self).remainder.gen(),
            final(self).remainder.n >= old(self).remainder.n,
            final(self).done == old(self).done,
            cl_reachable(old(self).remainder.gen(), old(self).cl_view(), final(self).cl_view()),
            r is Ok ==> final(self).tape@.len() == old(self).tape@.len() + new_digits,
            new_digits == 0 ==> r is Ok,
            r is Err ==> r == Err::<(), crate::regular::RedError>(
                crate::regular::RedError::StepLimit,
            ),
            r is Err ==> ({
                let w = crate::regular::ratio_window(ratio);
                (final(self).remainder.n as int) > i128::MAX as int - w
                    || !final(self).remainder.gen().in_dom((final(self).remainder.n as int) + w)
            }),
    {
        let limit = self.tape.len() + new_digits;
        let rx: usize = match ratio {
            Some(x) => if x == 0 {
                1
            } else {
                x
            },
            None => 1,
        };
        let ghost gn = old(self).remainder.gen();
        let ghost v0 = old(self).cl_view();
        proof {
            assert(rx as int == crate::regular::ratio_window(ratio));
            lemma_cl_reach_refl(gn, v0);
        }
        let mut left = new_digits;
        // pro-phase: only what is already certified, and not more
        while left > 0
            invariant
                limit == old(self).tape@.len() + new_digits,
                limit <= usize::MAX,
                rx >= 1,
                rx as int == crate::regular::ratio_window(ratio),
                gn == old(self).remainder.gen(),
                v0 == old(self).cl_view(),
                self.remainder.gen() == gn,
                self.remainder.n >= old(self).remainder.n >= 0,
                self.done == old(self).done,
                cl_reachable(gn, v0, self.cl_view()),
                self.tape@.len() + left == limit,
                left <= new_digits,
            ensures
                limit == old(self).tape@.len() + new_digits,
                gn == old(self).remainder.gen(),
                v0 == old(self).cl_view(),
                self.remainder.gen() == gn,
                self.remainder.n >= old(self).remainder.n >= 0,
                self.done == old(self).done,
                cl_reachable(gn, v0, self.cl_view()),
                self.tape@.len() <= limit,
                new_digits == 0 ==> self.tape@.len() >= limit,
            decreases left,
        {
            if self.remainder.n == i128::MAX {
                return Err(crate::regular::RedError::StepLimit);
            }
            if !self.remainder.ab.in_dom_at(self.remainder.n + 1) {
                proof {
                    let nf = self.remainder.n as int;
                    let w = crate::regular::ratio_window(ratio);
                    if self.remainder.gen().in_dom(nf + w) {
                        self.remainder.ab.dom_closed(nf + 1, nf + w);
                    }
                }
                return Err(crate::regular::RedError::StepLimit);
            }
            let ghost vpre = self.cl_view();
            proof {
                assert forall|m: int|
                    (self.remainder.n as int) < m <= (self.remainder.n as int)
                        + crate::regular::prop_window(0) implies gn.in_dom(m) by {
                    self.remainder.ab.dom_closed(m, self.remainder.n as int + 1);
                }
            }
            let got = self.red1(0);
            proof {
                lemma_cl_reach_trans(gn, v0, vpre, self.cl_view());
            }
            if got {
                left = left - 1;
            } else {
                break;
            }
        }
        // pre-phase: one batched advancement sized by the ratio estimate,
        // only as far as the machine range and the generator's domain reach
        let headroom = i128::MAX - self.remainder.n;
        let scaled = match (rx as i128).checked_mul(left as i128) {
            Some(s) => if s <= headroom {
                s
            } else {
                headroom
            },
            None => headroom,
        };
        if scaled >= 1 {
            let target = self.remainder.n + scaled;
            if self.remainder.ab.in_dom_at(target) {
                proof {
                    assert forall|m: int|
                        (self.remainder.n as int) < m <= (self.remainder.n as int) + (
                        scaled as int) implies gn.in_dom(m) by {
                        self.remainder.ab.dom_closed(m, target as int);
                    }
                }
                let ghost vpre = self.cl_view();
                self.remainder.prop_bs(scaled);
                proof {
                    lemma_cl_reach_advances(gn, vpre, scaled as nat);
                    lemma_cl_reach_trans(gn, v0, vpre, self.cl_view());
                }
            }
        }
        if self.remainder.finite() {
            let ghost vpre = self.cl_view();
            KFrac::gcd_div(&mut self.remainder);
            proof {
                crate::regular::lemma_reduce_matches(vpre.2, self.remainder.state());
                lemma_cl_reach_step(gn, vpre, ClStep::Reduce);
                lemma_cl_reach_trans(gn, v0, vpre, self.cl_view());
            }
        }
        while self.tape.len() < limit
            invariant
                limit == old(self).tape@.len() + new_digits,
                limit <= usize::MAX,
                rx >= 1,
                rx as int == crate::regular::ratio_window(ratio),
                new_digits == 0 ==> self.tape@.len() >= limit,
                gn == old(self).remainder.gen(),
                v0 == old(self).cl_view(),
                self.remainder.gen() == gn,
                self.remainder.n >= old(self).remainder.n >= 0,
                self.done == old(self).done,
                cl_reachable(gn, v0, self.cl_view()),
                self.tape@.len() <= limit,
            decreases limit - self.tape@.len(), i128::MAX - self.remainder.n,
        {
            if self.remainder.n > i128::MAX - (rx as i128) {
                return Err(crate::regular::RedError::StepLimit);
            }
            let nxt = self.remainder.n + (rx as i128);
            if !self.remainder.ab.in_dom_at(nxt) {
                return Err(crate::regular::RedError::StepLimit);
            }
            let ghost vpre = self.cl_view();
            proof {
                assert forall|m: int|
                    (self.remainder.n as int) < m <= (self.remainder.n as int)
                        + crate::regular::prop_window(rx) implies gn.in_dom(m) by {
                    self.remainder.ab.dom_closed(m, nxt as int);
                }
            }
            self.red1(rx);
            proof {
                lemma_cl_reach_trans(gn, v0, vpre, self.cl_view());
            }
        }
        Ok(())
    }
}

pub open spec fn cl_sym_ok(c: char) -> bool {
    c == '0' || c == '1'
}

pub open spec fn all_syms_ok(s: Seq<char>) -> bool {
    forall|i: int| 0 <= i < s.len() ==> cl_sym_ok(s[i])
}

/// One backward replay step of reconstruction.
pub open spec fn recon_step(p: (int, int), c: char) -> (int, int) {
    if c == '0' {
        (p.1 + p.0, p.0)
    } else {
        (2 * p.0, p.1)
    }
}

/// Backward replay of a whole tape body: the last symbol is applied first.
pub open spec fn recon_fold(p: (int, int), s: Seq<char>) -> (int, int)
    decreases s.len(),
{
    if s.len() == 0 {
        p
    } else {
        recon_fold(recon_step(p, s.last()), s.drop_last())
    }
}

/// Both members divided by their gcd.
pub open spec fn reduced_pair(p: (int, int)) -> (int, int) {
    let g = gcd_int(p.0, p.1);
    (p.0 / g, p.1 / g)
}

/// Two pairs denote the same rational value.
pub open spec fn same_ratio(p: (int, int), q: (int, int)) -> bool {
    p.0 * q.1 == q.0 * p.1
}

/// The tape digits as characters.
pub open spec fn tape_chars(t: Seq<u8>) -> Seq<char> {
    t.map_values(|d: u8| if d == 0 { '0' } else { '1' })
}

pub proof fn lemma_recon_fold_pos(p: (int, int), s: Seq<char>)
    requires
        p.0 >= 1,
        p.1 >= 0,
    ensures
        recon_fold(p, s).0 >= 1,
        recon_fold(p, s).1 >= 0,
    decreases s.len(),
{
    if s.len() > 0 {
        lemma_recon_fold_pos(recon_step(p, s.last()), s.drop_last());
    }
}

pub proof fn lemma_recon_fold_cons(p: (int, int), c: char, u: Seq<char>)
    ensures
        recon_fold(p, seq![c] + u) == recon_step(recon_fold(p, u), c),
    decreases u.len(),
{
    let s = seq![c] + u;
    if u.len() == 0 {
        assert(s.last() == c);
        assert(s.drop_last() =~= Seq::<char>::empty());
        assert(recon_fold(p, u) == p);
        assert(recon_fold(recon_step(p, c), s.drop_last()) == recon_step(p, c));
    } else {
        assert(s.last() == u.last());
        assert(s.drop_last() =~= seq![c] + u.drop_last());
        lemma_recon_fold_cons(recon_step(p, u.last()), c, u.drop_last());
    }
}

/// Round trip: the continued-logarithm tape of a finite rational of value
/// at least one is non-empty, ends with a `0`, and replaying the tape body
/// backwards from the seed `1/1` reconstructs the original value.
#[verifier::rlimit(60)]
pub proof fn lemma_cl_round_trip(n: int, d: int)
    requires
        at_least_one(n, d),
        d != 0,
    ensures
        cl_run(n, d).0.len() >= 1,
        cl_run(n, d).0.last() == 0,
        same_ratio(recon_fold((1int, 1int), tape_chars(cl_run(n, d).0).drop_last()), (n, d)),
    decreases abs_i(n), cl_qm((n, d)),
{
    lemma_cl_measure(n, d);
    let t = cl_run(n, d).0;
    if at_least_two(n, d) {
        let next: (int, int) = if n % 2 == 0 {
            (n / 2, d)
        } else {
            (n, 2 * d)
        };
        lemma_cl_round_trip(next.0, next.1);
        let t2 = cl_run(next.0, next.1).0;
        assert(t == seq![1u8] + t2);
        assert(tape_chars(t) =~= seq!['1'] + tape_chars(t2));
        assert(tape_chars(t).drop_last() =~= seq!['1'] + tape_chars(t2).drop_last());
        assert(t.last() == t2.last());
        let y = recon_fold((1int, 1int), tape_chars(t2).drop_last());
        lemma_recon_fold_cons((1int, 1int), '1', tape_chars(t2).drop_last());
        assert(recon_fold((1int, 1int), tape_chars(t).drop_last()) == (2 * y.0, y.1));
        if n % 2 == 0 {
            assert(n == 2 * (n / 2)) by {
                vstd::arithmetic::div_mod::lemma_fundamental_div_mod(n, 2);
            }
            assert(y.0 * d == (n / 2) * y.1);
            assert((2 * y.0) * d == n * y.1) by (nonlinear_arith)
                requires y.0 * d == (n / 2) * y.1, n == 2 * (n / 2),
            ;
        } else {
            assert((2 * y.0) * d == n * y.1) by (nonlinear_arith)
                requires y.0 * (2 * d) == n * y.1,
            ;
        }
        assert(recon_fold((1int, 1int), tape_chars(cl_run(n, d).0).drop_last()) == (2 * y.0, y.1));
        assert(same_ratio((2 * y.0, y.1), (n, d)));
    } else {
        let next = (d, n - d);
        if n == d {
            assert(cl_run(next.0, next.1).0 == Seq::<u8>::empty());
            assert(t == seq![0u8] + Seq::<u8>::empty());
            assert(t =~= seq![0u8]);
            assert(tape_chars(t) =~= seq!['0']);
            assert(tape_chars(t).drop_last() =~= Seq::<char>::empty());
            assert(recon_fold((1int, 1int), Seq::<char>::empty()) == (1int, 1int));
            assert(recon_fold((1int, 1int), tape_chars(cl_run(n, d).0).drop_last())
                == (1int, 1int));
            assert(1int * d == n * 1int) by (nonlinear_arith)
                requires n == d,
            ;
            assert(same_ratio((1int, 1int), (n, d)));
        } else {
            assert(next.1 != 0);
            assert(at_least_one(next.0, next.1));
            lemma_cl_round_trip(next.0, next.1);
            let t2 = cl_run(next.0, next.1).0;
            assert(t == seq![0u8] + t2);
            assert(tape_chars(t) =~= seq!['0'] + tape_chars(t2));
            assert(tape_chars(t).drop_last() =~= seq!['0'] + tape_chars(t2).drop_last());
            assert(t.last() == t2.last());
            let y = recon_fold((1int, 1int), tape_chars(t2).drop_last());
            lemma_recon_fold_cons((1int, 1int), '0', tape_chars(t2).drop_last());
            assert(recon_fold((1int, 1int), tape_chars(t).drop_last()) == (y.1 + y.0, y.0));
            assert((y.1 + y.0) * d == n * y.0) by (nonlinear_arith)
                requires y.0 * (n - d) == d * y.1,
            ;
            assert(recon_fold((1int, 1int), tape_chars(cl_run(n, d).0).drop_last())
                == (y.1 + y.0, y.0));
            assert(same_ratio((y.1 + y.0, y.0), (n, d)));
        }
    }
}

} // verus!
