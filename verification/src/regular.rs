//! Regular continued-fraction digit extraction.
//!
//! The extractor strips Euclidean quotients from a remainder, which is
//! either an exact rational or a bracketing pair of convergents. With a
//! bracket, a digit is emitted only when both convergents agree on it:
//! every emitted digit is then correct whatever the expansion would later
//! reveal. Too-large quotients are a recoverable capacity failure.

use vstd::prelude::*;

verus! {

use crate::bigint::{int_div_rem, int_eq, int_to_u128};
use crate::brackets::{
    KFrac, TermGen, Mat, mat_mul, step_mat, advanced, four_gcd,
};
use crate::fractions::Frac;
use crate::nums::{abs_i, trunc_div, trunc_rem, lemma_trunc_div_rem};

#[derive(Clone, Copy, Debug, PartialEq, Eq, Structural)]
pub enum RedError {
    /// A quotient does not fit the tape's digit width.
    TermTooLarge,
    /// The generator's step index would leave the machine range.
    StepLimit,
}

/// Marker for the types an extractor can use as its remainder.
pub trait RegFracOps {}

impl RegFracOps for Frac {}

impl<G: TermGen> RegFracOps for KFrac<G> {}

pub struct RegFrac<T: RegFracOps> {
    pub tape: Vec<u128>,
    pub remainder: T,
}

impl<T: RegFracOps> RegFrac<T> {
    pub fn from(a: T) -> (r: Self)
        ensures
            r.tape@ == Seq::<u128>::empty(),
            r.remainder == a,
    {
        RegFrac { tape: Vec::new(), remainder: a }
    }
}

/// The complete run of Euclidean quotient stripping from `n/d`: the digits
/// produced, the final remainder pair, and whether the run ended by
/// exhaustion (`true`) or because a quotient left the digit range.
pub open spec fn cf_run(n: int, d: int) -> (Seq<u128>, int, int, bool)
    decreases abs_i(d),
{
    if d == 0 {
        (Seq::<u128>::empty(), n, d, true)
    } else {
        let q = trunc_div(n, d);
        if 0 <= q <= u128::MAX as int {
            proof {
                lemma_trunc_div_rem(n, d);
            }
            let rest = cf_run(d, trunc_rem(n, d));
            (seq![q as u128] + rest.0, rest.1, rest.2, rest.3)
        } else {
            (Seq::<u128>::empty(), n, d, false)
        }
    }
}

impl RegFrac<Frac> {
    /// One Euclidean step: push the quotient, make the remainder the
    /// reciprocal of the fractional part. A quotient outside the digit
    /// range is reported and nothing changes.
    pub fn red1(&mut self) -> (r: Result<(), RedError>)
        requires
            old(self).remainder.den_int() != 0,
        ensures
            ({
                let n = old(self).remainder.num_int();
                let d = old(self).remainder.den_int();
                let q = trunc_div(n, d);
                if 0 <= q <= u128::MAX as int {
                    r == Ok::<(), RedError>(())
                        && final(self).tape@ == old(self).tape@.push(q as u128)
                        && final(self).remainder.pair() == (d, trunc_rem(n, d))
                } else {
                    r == Err::<(), RedError>(RedError::TermTooLarge)
                        && final(self).tape@ == old(self).tape@
                        && final(self).remainder.pair() == old(self).remainder.pair()
                }
            }),
    {
        let qr = int_div_rem(&self.remainder.num, &self.remainder.den);
        match int_to_u128(&qr.0) {
            Some(c) => {
                self.tape.push(c);
                self.remainder.num = qr.1;
                self.remainder.inv();
                Ok(())
            },
            None => Err(RedError::TermTooLarge),
        }
    }

    /// Strip quotients until the remainder is exhausted (denominator zero)
    /// or a quotient leaves the digit range: the tape is extended by
    /// exactly the regular continued fraction of the remainder.
    pub fn red(&mut self) -> (r: Result<(), RedError>)
        ensures
            ({
                let run = cf_run(old(self).remainder.num_int(), old(self).remainder.den_int());
                final(self).tape@ == old(self).tape@ + run.0
                    && final(self).remainder.pair() == (run.1, run.2)
                    && (r is Ok <==> run.3)
                    && (r is Ok ==> final(self).remainder.den_int() == 0)
                    && (r is Err ==> r == Err::<(), RedError>(RedError::TermTooLarge))
            }),
    {
        let ghost run0 = cf_run(old(self).remainder.num_int(), old(self).remainder.den_int());
        let ghost tape0 = self.tape@;
        let ghost l0 = tape0.len() as int;
        let mut fin = self.remainder.finite();
        while fin
            invariant
                fin == (self.remainder.den_int() != 0),
                tape0 == old(self).tape@,
                run0 == cf_run(old(self).remainder.num_int(), old(self).remainder.den_int()),
                tape0.len() <= self.tape@.len(),
                self.tape@.subrange(0, l0) == tape0,
                l0 == tape0.len(),
                run0.0 == self.tape@.skip(l0) + cf_run(self.remainder.num_int(),
                    self.remainder.den_int()).0,
                run0.1 == cf_run(self.remainder.num_int(), self.remainder.den_int()).1,
                run0.2 == cf_run(self.remainder.num_int(), self.remainder.den_int()).2,
                run0.3 == cf_run(self.remainder.num_int(), self.remainder.den_int()).3,
            decreases abs_i(self.remainder.den_int()),
        {
            let ghost tpre = self.tape@;
            let ghost cur = self.remainder.pair();
            proof {
                lemma_trunc_div_rem(cur.0, cur.1);
            }
            let step = self.red1();
            if step.is_err() {
                proof {
                    assert(cf_run(cur.0, cur.1).0 == Seq::<u128>::empty());
                    assert(run0.0 =~= self.tape@.skip(l0));
                    assert(self.tape@ =~= tape0 + run0.0);
                }
                return Err(RedError::TermTooLarge);
            }
            proof {
                let q = trunc_div(cur.0, cur.1);
                assert(self.tape@ == tpre.push(q as u128));
                assert(self.tape@.subrange(0, l0) =~= tape0);
                assert(self.tape@.skip(l0) =~= tpre.skip(l0) + seq![q as u128]);
                assert(cf_run(cur.0, cur.1).0 == seq![q as u128]
                    + cf_run(self.remainder.num_int(), self.remainder.den_int()).0);
                assert(tpre.skip(l0) + (seq![q as u128] + cf_run(self.remainder.num_int(),
                    self.remainder.den_int()).0) =~= (tpre.skip(l0) + seq![q as u128])
                    + cf_run(self.remainder.num_int(), self.remainder.den_int()).0);
            }
            fin = self.remainder.finite();
        }
        proof {
            assert(cf_run(self.remainder.num_int(), self.remainder.den_int()).0
                == Seq::<u128>::empty());
            assert(run0.0 =~= self.tape@.skip(l0));
            assert(self.tape@ =~= tape0 + run0.0);
        }
        Ok(())
    }
}

/// The observable state of a bracket-driven extractor: tape, step index,
/// and the four state integers.
pub type BrView = (Seq<u128>, int, Mat);

/// The legal moves of a bracket-driven extractor.
pub enum CfStep {
    Emit,
    Advance,
    Reduce,
}

/// Both convergents are finite, they agree on the next Euclidean quotient,
/// and the quotient fits the digit width: only then may a digit be emitted.
pub open spec fn cf_can_emit(s: Mat) -> bool {
    s.2 != 0 && s.3 != 0 && trunc_div(s.0, s.2) == trunc_div(s.1, s.3) && 0 <= trunc_div(
        s.0,
        s.2,
    ) <= u128::MAX as int
}

/// The division step applied to both convergents at once.
pub open spec fn cf_emit(s: Mat) -> Mat {
    (s.2, s.3, trunc_rem(s.0, s.2), trunc_rem(s.1, s.3))
}

/// All four state integers divided by their common gcd.
pub open spec fn reduce_state(s: Mat) -> Mat {
    let g = four_gcd(s);
    (s.0 / g, s.1 / g, s.2 / g, s.3 / g)
}

pub open spec fn cf_step_ok<G: TermGen>(g: G, v: BrView, op: CfStep) -> bool {
    match op {
        CfStep::Emit => cf_can_emit(v.2),
        CfStep::Advance => g.in_dom(v.1 + 1),
        CfStep::Reduce => v.2 != (0int, 0int, 0int, 0int),
    }
}

pub open spec fn cf_step<G: TermGen>(g: G, v: BrView, op: CfStep) -> BrView {
    match op {
        CfStep::Emit => (v.0.push(trunc_div(v.2.0, v.2.2) as u128), v.1, cf_emit(v.2)),
        CfStep::Advance => (v.0, v.1 + 1, mat_mul(v.2, step_mat(g, v.1 + 1))),
        CfStep::Reduce => (v.0, v.1, reduce_state(v.2)),
    }
}

pub open spec fn cf_steps_ok<G: TermGen>(g: G, v: BrView, ops: Seq<CfStep>) -> bool
    decreases ops.len(),
{
    ops.len() == 0 || (cf_step_ok(g, v, ops[0]) && cf_steps_ok(
        g,
        cf_step(g, v, ops[0]),
        ops.drop_first(),
    ))
}

pub open spec fn cf_steps<G: TermGen>(g: G, v: BrView, ops: Seq<CfStep>) -> BrView
    decreases ops.len(),
{
    if ops.len() == 0 {
        v
    } else {
        cf_steps(g, cf_step(g, v, ops[0]), ops.drop_first())
    }
}

/// `b` is reachable from `a` by legal extractor moves alone. In particular
/// every digit `b`'s tape has beyond `a`'s was emitted under the
/// bracket-agreement guard: no unverified digit is ever emitted.
pub open spec fn cf_reachable<G: TermGen>(g: G, a: BrView, b: BrView) -> bool {
    exists|ops: Seq<CfStep>| cf_steps_ok(g, a, ops) && b == cf_steps(g, a, ops)
}

pub proof fn lemma_cf_steps_concat<G: TermGen>(g: G, v: BrView, ops1: Seq<CfStep>, ops2: Seq<
    CfStep,
>)
    requires
        cf_steps_ok(g, v, ops1),
        cf_steps_ok(g, cf_steps(g, v, ops1), ops2),
    ensures
        cf_steps_ok(g, v, ops1 + ops2),
        cf_steps(g, v, ops1 + ops2) == cf_steps(g, cf_steps(g, v, ops1), ops2),
    decreases ops1.len(),
{
    if ops1.len() == 0 {
        assert(ops1 + ops2 =~= ops2);
    } else {
        let w = cf_step(g, v, ops1[0]);
        lemma_cf_steps_concat(g, w, ops1.drop_first(), ops2);
        assert((ops1 + ops2).drop_first() =~= ops1.drop_first() + ops2);
    }
}

pub proof fn lemma_cf_reachable_refl<G: TermGen>(g: G, v: BrView)
    ensures
        cf_reachable(g, v, v),
{
    let ops = Seq::<CfStep>::empty();
    assert(cf_steps_ok(g, v, ops) && v == cf_steps(g, v, ops));
}

pub proof fn lemma_cf_reachable_trans<G: TermGen>(g: G, a: BrView, b: BrView, c: BrView)
    requires
        cf_reachable(g, a, b),
        cf_reachable(g, b, c),
    ensures
        cf_reachable(g, a, c),
{
    let ops1 = choose|ops: Seq<CfStep>| cf_steps_ok(g, a, ops) && b == cf_steps(g, a, ops);
    let ops2 = choose|ops: Seq<CfStep>| cf_steps_ok(g, b, ops) && c == cf_steps(g, b, ops);
    lemma_cf_steps_concat(g, a, ops1, ops2);
    assert(cf_steps_ok(g, a, ops1 + ops2) && c == cf_steps(g, a, ops1 + ops2));
}

pub proof fn lemma_cf_reachable_step<G: TermGen>(g: G, v: BrView, op: CfStep)
    requires
        cf_step_ok(g, v, op),
    ensures
        cf_reachable(g, v, cf_step(g, v, op)),
{
    let ops = seq![op];
    let w = cf_step(g, v, op);
    let rest = ops.drop_first();
    assert(rest =~= Seq::<CfStep>::empty());
    assert(cf_steps_ok(g, w, rest));
    assert(cf_steps(g, w, rest) == w);
    assert(ops[0] == op);
    assert(cf_steps_ok(g, v, ops));
    assert(cf_steps(g, v, ops) == w);
}

/// Advancing the bracket `k` single steps is reachable whenever the
/// generator's domain covers the indices used.
pub proof fn lemma_cf_reachable_advances<G: TermGen>(g: G, v: BrView, k: nat)
    requires
        forall|m: int| v.1 < m <= v.1 + k ==> g.in_dom(m),
    ensures
        cf_reachable(g, v, (v.0, v.1 + k, advanced(v.2, g, v.1, k))),
    decreases k,
{
    if k == 0 {
        assert(advanced(v.2, g, v.1, 0nat) == v.2);
        lemma_cf_reachable_refl(g, v);
        assert((v.0, v.1 + 0, advanced(v.2, g, v.1, 0nat)) == v);
    } else {
        lemma_cf_reachable_advances(g, v, (k - 1) as nat);
        let w = (v.0, v.1 + (k - 1) as nat, advanced(v.2, g, v.1, (k - 1) as nat));
        assert(g.in_dom(w.1 + 1));
        lemma_cf_reachable_step(g, w, CfStep::Advance);
        assert(cf_step(g, w, CfStep::Advance) == (v.0, v.1 + k, advanced(v.2, g, v.1, k)));
        lemma_cf_reachable_trans(g, v, w, (v.0, v.1 + k, advanced(v.2, g, v.1, k)));
    }
}

/// What the executable gcd reduction leaves behind is exactly the model's
/// `reduce_state`.
pub proof fn lemma_reduce_matches(s: Mat, t: Mat)
    requires
        four_gcd(s) >= 1,
        t.0 * four_gcd(s) == s.0,
        t.1 * four_gcd(s) == s.1,
        t.2 * four_gcd(s) == s.2,
        t.3 * four_gcd(s) == s.3,
    ensures
        t == reduce_state(s),
{
    let g = four_gcd(s);
    vstd::arithmetic::div_mod::lemma_fundamental_div_mod_converse(s.0, g, t.0, 0);
    vstd::arithmetic::div_mod::lemma_fundamental_div_mod_converse(s.1, g, t.1, 0);
    vstd::arithmetic::div_mod::lemma_fundamental_div_mod_converse(s.2, g, t.2, 0);
    vstd::arithmetic::div_mod::lemma_fundamental_div_mod_converse(s.3, g, t.3, 0);
}

proof fn lemma_cf_steps_tape_prefix<G: TermGen>(g: G, v: BrView, ops: Seq<CfStep>)
    requires
        cf_steps_ok(g, v, ops),
    ensures
        v.0.is_prefix_of(cf_steps(g, v, ops).0),
    decreases ops.len(),
{
    if ops.len() == 0 {
        assert(v.0.is_prefix_of(v.0));
    } else {
        let w = cf_step(g, v, ops[0]);
        lemma_cf_steps_tape_prefix(g, w, ops.drop_first());
        assert(v.0.is_prefix_of(w.0));
        let e = cf_steps(g, v, ops).0;
        assert(w.0.is_prefix_of(e));
        assert(v.0 =~= e.subrange(0, v.0.len() as int));
    }
}

/// The tape is append-only: whatever states the extractor moves through,
/// digits once emitted stay in place.
pub proof fn lemma_cf_reachable_tape_prefix<G: TermGen>(g: G, a: BrView, b: BrView)
    requires
        cf_reachable(g, a, b),
    ensures
        a.0.is_prefix_of(b.0),
{
    let ops = choose|ops: Seq<CfStep>| cf_steps_ok(g, a, ops) && b == cf_steps(g, a, ops);
    lemma_cf_steps_tape_prefix(g, a, ops);
}

/// Soundness of the agreement guard: when both convergents of a bracket
/// with positive denominators agree on a non-negative truncating quotient,
/// every rational `p/q` lying between them (in either orientation) has
/// that same quotient. An agreed digit is therefore correct for whatever
/// value the bracket encloses, however many further steps would reveal it.
pub proof fn lemma_agreement_certifies(n1: int, d1: int, n2: int, d2: int, p: int, q: int)
    requires
        d1 > 0,
        d2 > 0,
        q > 0,
        trunc_div(n1, d1) == trunc_div(n2, d2),
        trunc_div(n1, d1) >= 0,
        (n1 * q <= p * d1 && p * d2 <= n2 * q) || (n2 * q <= p * d2 && p * d1 <= n1 * q),
    ensures
        trunc_div(p, q) == trunc_div(n1, d1),
{
    let t = trunc_div(n1, d1);
    crate::nums::lemma_trunc_div_pos_bounds(n1, d1);
    crate::nums::lemma_trunc_div_pos_bounds(n2, d2);
    if t == 0 {
        if n1 * q <= p * d1 && p * d2 <= n2 * q {
            assert(-q < p) by (nonlinear_arith)
                requires n1 * q <= p * d1, -d1 < n1, d1 > 0, q > 0,
            ;
            assert(p < q) by (nonlinear_arith)
                requires p * d2 <= n2 * q, n2 < d2, d2 > 0, q > 0,
            ;
        } else {
            assert(-q < p) by (nonlinear_arith)
                requires n2 * q <= p * d2, -d2 < n2, d2 > 0, q > 0,
            ;
            assert(p < q) by (nonlinear_arith)
                requires p * d1 <= n1 * q, n1 < d1, d1 > 0, q > 0,
            ;
        }
        crate::nums::lemma_trunc_div_from_bounds(p, q, 0);
    } else {
        if n1 * q <= p * d1 && p * d2 <= n2 * q {
            assert(t * q <= p) by (nonlinear_arith)
                requires n1 * q <= p * d1, t * d1 <= n1, d1 > 0, q > 0,
            ;
            assert(p < (t + 1) * q) by (nonlinear_arith)
                requires p * d2 <= n2 * q, n2 < (t + 1) * d2, d2 > 0, q > 0,
            ;
        } else {
            assert(t * q <= p) by (nonlinear_arith)
                requires n2 * q <= p * d2, t * d2 <= n2, d2 > 0, q > 0,
            ;
            assert(p < (t + 1) * q) by (nonlinear_arith)
                requires p * d1 <= n1 * q, n1 < (t + 1) * d1, d1 > 0, q > 0,
            ;
        }
        crate::nums::lemma_trunc_div_from_bounds(p, q, t);
    }
}

/// The agreement guard: while the two convergents disagree on the next
/// Euclidean quotient, no legal move emits a digit — the tape can only
/// stay as it is while the bracket advances or is rescaled.
pub proof fn lemma_disagreement_blocks_emission<G: TermGen>(g: G, v: BrView, op: CfStep)
    requires
        v.2.2 != 0,
        v.2.3 != 0,
        trunc_div(v.2.0, v.2.2) != trunc_div(v.2.1, v.2.3),
        cf_step_ok(g, v, op),
    ensures
        cf_step(g, v, op).0 == v.0,
        !(op is Emit),
{
}

/// The window of step indices one `red1` call may consume.
pub open spec fn prop_window(ratio: usize) -> int {
    if ratio == 0 {
        1
    } else {
        ratio as int
    }
}

/// The per-attempt advancement window a driver derives from its ratio
/// argument.
pub open spec fn ratio_window(ratio: Option<usize>) -> int {
    match ratio {
        Some(x) => if x == 0 {
            1
        } else {
            x as int
        },
        None => 1,
    }
}

/// The largest per-attempt advancement window the adaptive driver uses.
pub open spec fn adapt_window(chunk: usize) -> int {
    if chunk as int > 1000000 {
        chunk as int
    } else {
        1000000
    }
}

impl<G: TermGen> RegFrac<KFrac<G>> {
    pub open spec fn br_view(&self) -> BrView {
        (self.tape@, self.remainder.n as int, self.remainder.state())
    }

    /// One extraction attempt. If either convergent is infinite, advance
    /// once. If both quotients agree and fit, emit the digit and divide
    /// both convergents. If they agree but do not fit, report and change
    /// nothing. If they disagree, the digit cannot be certified yet:
    /// advance `ratio` steps instead.
    pub fn red1(&mut self, ratio: usize) -> (r: Result<bool, RedError>)
        requires
            old(self).remainder.n >= 0,
            (old(self).remainder.n as int) + prop_window(ratio) <= i128::MAX as int,
            forall|m: int|
                (old(self).remainder.n as int) < m <= (old(self).remainder.n as int)
                    + prop_window(ratio) ==> old(self).remainder.gen().in_dom(m),
        ensures
            final(self).remainder.gen() == old(self).remainder.gen(),
            cf_reachable(old(self).remainder.gen(), old(self).br_view(), final(self).br_view()),
            ({
                let s = old(self).remainder.state();
                let n0 = old(self).remainder.n as int;
                let gn = old(self).remainder.gen();
                if s.2 == 0 || s.3 == 0 {
                    r == Ok::<bool, RedError>(false) && final(self).tape@ == old(self).tape@
                        && final(self).remainder.n == n0 + 1 && final(self).remainder.state()
                        == advanced(s, gn, n0, 1)
                } else if trunc_div(s.0, s.2) == trunc_div(s.1, s.3) {
                    if 0 <= trunc_div(s.0, s.2) <= u128::MAX as int {
                        r == Ok::<bool, RedError>(true) && final(self).br_view() == cf_step(
                            gn,
                            old(self).br_view(),
                            CfStep::Emit,
                        )
                    } else {
                        r == Err::<bool, RedError>(RedError::TermTooLarge)
                            && final(self).br_view() == old(self).br_view()
                    }
                } else {
                    r == Ok::<bool, RedError>(false) && final(self).tape@ == old(self).tape@
                        && final(self).remainder.n == n0 + ratio as int
                        && final(self).remainder.state() == advanced(s, gn, n0, ratio as nat)
                }
            }),
    {
        let fin1 = self.remainder.frac1.finite();
        let fin2 = self.remainder.frac2.finite();
        if !fin1 || !fin2 {
            self.remainder.prop();
            proof {
                let s0 = old(self).remainder.state();
                let gn = old(self).remainder.gen();
                let n0 = old(self).remainder.n as int;
                assert(advanced(s0, gn, n0, 0nat) == s0);
                assert(advanced(s0, gn, n0, 1nat) == mat_mul(s0, step_mat(gn, n0 + 1)));
                lemma_cf_reachable_advances(gn, old(self).br_view(), 1nat);
            }
            return Ok(false);
        }
        let d1 = int_div_rem(&self.remainder.frac1.num, &self.remainder.frac1.den);
        let d2 = int_div_rem(&self.remainder.frac2.num, &self.remainder.frac2.den);
        if int_eq(&d1.0, &d2.0) {
            match int_to_u128(&d1.0) {
                Some(c) => {
                    self.tape.push(c);
                    self.remainder.frac1.num = d1.1;
                    self.remainder.frac1.inv();
                    self.remainder.frac2.num = d2.1;
                    self.remainder.frac2.inv();
                    proof {
                        assert(self.br_view() == cf_step(old(self).remainder.gen(),
                            old(self).br_view(), CfStep::Emit));
                        lemma_cf_reachable_step(old(self).remainder.gen(), old(self).br_view(),
                            CfStep::Emit);
                    }
                    Ok(true)
                },
                None => {
                    proof {
                        lemma_cf_reachable_refl(old(self).remainder.gen(), old(self).br_view());
                    }
                    Err(RedError::TermTooLarge)
                },
            }
        } else {
            let mut i: usize = 0;
            while i < ratio
                invariant
                    i <= ratio,
                    old(self).remainder.n >= 0,
                    (old(self).remainder.n as int) + prop_window(ratio) <= i128::MAX as int,
                    forall|m: int|
                        (old(self).remainder.n as int) < m <= (old(self).remainder.n as int)
                            + prop_window(ratio) ==> old(self).remainder.gen().in_dom(m),
                    self.remainder.gen() == old(self).remainder.gen(),
                    self.remainder.n == old(self).remainder.n + i,
                    self.remainder.state() == advanced(old(self).remainder.state(),
                        old(self).remainder.gen(), old(self).remainder.n as int, i as nat),
                    self.tape@ == old(self).tape@,
                decreases ratio - i,
            {
                self.remainder.prop();
                i = i + 1;
            }
            proof {
                lemma_cf_reachable_advances(old(self).remainder.gen(), old(self).br_view(),
                    ratio as nat);
            }
            Ok(false)
        }
    }

    /// Batched advancement sized by the ratio estimate, then a gcd
    /// reduction, then extraction until `new_terms` digits were produced.
    /// The scheduling only affects cost: the final state is reachable from
    /// the initial one by guarded moves alone. The driver stops with
    /// `StepLimit` at the machine's or the generator's index limit, and
    /// with `TermTooLarge` exactly when the convergents agree on a
    /// quotient outside the digit range.
    pub fn red(&mut self, new_terms: usize, ratio: Option<usize>) -> (r: Result<(), RedError>)
        requires
            old(self).remainder.n >= 0,
            old(self).tape@.len() + new_terms <= usize::MAX as int,
        ensures
            final(self).remainder.gen() == old(self).remainder.gen(),
            final(self).remainder.n >= old(self).remainder.n,
            cf_reachable(old(self).remainder.gen(), old(self).br_view(), final(self).br_view()),
            r is Ok ==> final(self).tape@.len() == old(self).tape@.len() + new_terms,
            new_terms == 0 ==> r is Ok,
            r == Err::<(), RedError>(RedError::TermTooLarge) ==> ({
                let s = final(self).remainder.state();
                s.2 != 0 && s.3 != 0 && trunc_div(s.0, s.2) == trunc_div(s.1, s.3) && !(0
                    <= trunc_div(s.0, s.2) <= u128::MAX as int)
            }),
            r == Err::<(), RedError>(RedError::StepLimit) ==> ({
                let w = ratio_window(ratio);
                (final(self).remainder.n as int) > i128::MAX as int - w
                    || !final(self).remainder.gen().in_dom((final(self).remainder.n as int) + w)
            }),
            r is Err ==> r == Err::<(), RedError>(RedError::TermTooLarge)
                || r == Err::<(), RedError>(RedError::StepLimit),
    {
        let limit = self.tape.len() + new_terms;
        let r0: usize = match ratio {
            Some(x) => if x == 0 {
                1
            } else {
                x
            },
            None => 1,
        };
        let ghost gn = old(self).remainder.gen();
        let ghost v0 = old(self).br_view();
        proof {
            assert(r0 as int == ratio_window(ratio));
            lemma_cf_reachable_refl(gn, v0);
        }
        // pre-phase: one batched advancement by the estimated need, only
        // as far as the machine range and the generator's domain reach
        let headroom = i128::MAX - self.remainder.n;
        let scaled128 = (r0 as i128).checked_mul(new_terms as i128);
        let scaled = match scaled128 {
            Some(s) => if s <= headroom {
                s
            } else {
                headroom
            },
            None => headroom,
        };
        if scaled >= 1 {
            let target = self.remainder.n + scaled;
            if self.remainder.ab.in_dom_at(target) {
                proof {
                    assert forall|m: int|
                        (self.remainder.n as int) < m <= (self.remainder.n as int) + (
                        scaled as int) implies gn.in_dom(m) by {
                        self.remainder.ab.dom_closed(m, target as int);
                    }
                }
                let ghost vpre = self.br_view();
                self.remainder.prop_bs(scaled);
                proof {
                    lemma_cf_reachable_advances(gn, vpre, scaled as nat);
                }
            }
        }
        if self.remainder.finite() {
            let ghost vpre = self.br_view();
            self.remainder.gcd_div();
            proof {
                lemma_reduce_matches(vpre.2, self.remainder.state());
                lemma_cf_reachable_step(gn, vpre, CfStep::Reduce);
                lemma_cf_reachable_trans(gn, v0, vpre, self.br_view());
            }
        }
        while self.tape.len() < limit
            invariant
                limit == old(self).tape@.len() + new_terms,
                limit <= usize::MAX,
                r0 >= 1,
                r0 as int == ratio_window(ratio),
                new_terms == 0 ==> self.tape@.len() >= limit,
                gn == old(self).remainder.gen(),
                v0 == old(self).br_view(),
                self.remainder.gen() == gn,
                self.remainder.n >= old(self).remainder.n >= 0,
                cf_reachable(gn, v0, self.br_view()),
                self.tape@.len() <= limit,
            decreases limit - self.tape@.len(), i128::MAX - self.remainder.n,
        {
            if self.remainder.n > i128::MAX - (r0 as i128) {
                return Err(RedError::StepLimit);
            }
            let nxt = self.remainder.n + (r0 as i128);
            if !self.remainder.ab.in_dom_at(nxt) {
                return Err(RedError::StepLimit);
            }
            let ghost vpre = self.br_view();
            proof {
                assert forall|m: int|
                    (self.remainder.n as int) < m <= (self.remainder.n as int) + prop_window(r0)
                    implies gn.in_dom(m) by {
                    self.remainder.ab.dom_closed(m, nxt as int);
                }
            }
            let step = self.red1(r0);
            proof {
                lemma_cf_reachable_trans(gn, v0, vpre, self.br_view());
            }
            match step {
                Ok(_) => {},
                Err(e) => {
                    return Err(e);
                },
            }
        }
        Ok(())
    }

    /// Adaptive batch driving: alternate "extract the digits the bracket
    /// already certifies" with "advance by an estimated shortfall", keeping
    /// a running steps-per-digit ratio. The estimate only sizes batches;
    /// emission stays guarded by convergent agreement, and the driver stops
    /// with `StepLimit` at the machine's or the generator's index limit.
    pub fn red_adapt(&mut self, new_terms: usize, chunk: usize) -> (r: Result<(), RedError>)
        requires
            old(self).remainder.n >= 0,
            old(self).tape@.len() + new_terms <= usize::MAX as int,
        ensures
            final(self).remainder.gen() == old(self).remainder.gen(),
            final(self).remainder.n >= old(self).remainder.n,
            cf_reachable(old(self).remainder.gen(), old(self).br_view(), final(self).br_view()),
            r is Ok ==> final(self).tape@.len() >= old(self).tape@.len() + new_terms,
            new_terms == 0 ==> r is Ok,
            r == Err::<(), RedError>(RedError::TermTooLarge) ==> ({
                let s = final(self).remainder.state();
                s.2 != 0 && s.3 != 0 && trunc_div(s.0, s.2) == trunc_div(s.1, s.3) && !(0
                    <= trunc_div(s.0, s.2) <= u128::MAX as int)
            }),
            r == Err::<(), RedError>(RedError::StepLimit) ==> ({
                let w = adapt_window(chunk);
                (final(self).remainder.n as int) > i128::MAX as int - w
                    || !final(self).remainder.gen().in_dom((final(self).remainder.n as int) + w)
            }),
            r is Err ==> r == Err::<(), RedError>(RedError::TermTooLarge)
                || r == Err::<(), RedError>(RedError::StepLimit),
    {
        let ghost bigw = adapt_window(chunk);
        if new_terms <= chunk {
            let out = self.red(new_terms, None);
            proof {
                if out == Err::<(), RedError>(RedError::StepLimit) {
                    let nf = self.remainder.n as int;
                    if !(nf > i128::MAX as int - bigw) {
                        assert(!self.remainder.gen().in_dom(nf + 1));
                        if self.remainder.gen().in_dom(nf + bigw) {
                            self.remainder.ab.dom_closed(nf + 1, nf + bigw);
                        }
                    }
                }
            }
            return out;
        }
        let limit = self.tape.len() + new_terms;
        let ghost gn = old(self).remainder.gen();
        let ghost v0 = old(self).br_view();
        proof {
            lemma_cf_reachable_refl(gn, v0);
        }
        let mut n0 = self.remainder.n;
        let mut l0 = self.tape.len();
        // initial advancement of one chunk, skipped at the index limits
        if chunk >= 1 && self.remainder.n <= i128::MAX - (chunk as i128) {
            let target = self.remainder.n + (chunk as i128);
            if self.remainder.ab.in_dom_at(target) {
                proof {
                    assert forall|m: int|
                        (self.remainder.n as int) < m <= (self.remainder.n as int) + (
                        chunk as int) implies gn.in_dom(m) by {
                        self.remainder.ab.dom_closed(m, target as int);
                    }
                }
                let ghost vpre = self.br_view();
                self.remainder.prop_bs(chunk as i128);
                proof {
                    lemma_cf_reachable_advances(gn, vpre, chunk as nat);
                }
            }
        }
        if self.remainder.finite() {
            let ghost vpre = self.br_view();
            self.remainder.gcd_div();
            proof {
                lemma_reduce_matches(vpre.2, self.remainder.state());
                lemma_cf_reachable_step(gn, vpre, CfStep::Reduce);
                lemma_cf_reachable_trans(gn, v0, vpre, self.br_view());
            }
        }
        // pro-phase: extract every digit certified with no advancement
        loop
            invariant
                chunk < new_terms,
                chunk as int <= bigw,
                bigw == adapt_window(chunk),
                gn == old(self).remainder.gen(),
                v0 == old(self).br_view(),
                self.remainder.gen() == gn,
                self.remainder.n >= old(self).remainder.n >= 0,
                cf_reachable(gn, v0, self.br_view()),
                self.tape@.len() >= l0,
            ensures
                gn == old(self).remainder.gen(),
                v0 == old(self).br_view(),
                self.remainder.gen() == gn,
                self.remainder.n >= old(self).remainder.n >= 0,
                cf_reachable(gn, v0, self.br_view()),
                self.tape@.len() >= l0,
            decreases abs_i(self.remainder.state().2),
        {
            if self.remainder.n == i128::MAX {
                return Err(RedError::StepLimit);
            }
            if !self.remainder.ab.in_dom_at(self.remainder.n + 1) {
                proof {
                    let nf = self.remainder.n as int;
                    if self.remainder.gen().in_dom(nf + bigw) {
                        self.remainder.ab.dom_closed(nf + 1, nf + bigw);
                    }
                }
                return Err(RedError::StepLimit);
            }
            let ghost vpre = self.br_view();
            proof {
                assert forall|m: int|
                    (self.remainder.n as int) < m <= (self.remainder.n as int) + prop_window(0)
                    implies gn.in_dom(m) by {
                    self.remainder.ab.dom_closed(m, self.remainder.n as int + 1);
                }
            }
            let step = self.red1(0);
            proof {
                lemma_cf_reachable_trans(gn, v0, vpre, self.br_view());
            }
            match step {
                Ok(true) => {
                    proof {
                        lemma_trunc_div_rem(vpre.2.0, vpre.2.2);
                    }
                },
                Ok(false) => {
                    break;
                },
                Err(_) => {
                    break;
                },
            }
        }
        let mut l1 = self.tape.len();
        let mut steps: i128 = self.remainder.n - n0;
        let mut digits: usize = l1 - l0;
        let mut gq: i128 = if digits > 0 {
            let q = steps / (digits as i128);
            if q < 1 {
                1
            } else {
                q
            }
        } else {
            if steps < 1 {
                1
            } else {
                steps
            }
        };
        while l1 < limit
            invariant
                chunk < new_terms,
                limit == old(self).tape@.len() + new_terms,
                limit <= usize::MAX,
                gq >= 1,
                chunk as int <= bigw,
                bigw == adapt_window(chunk),
                gn == old(self).remainder.gen(),
                v0 == old(self).br_view(),
                self.remainder.gen() == gn,
                self.remainder.n >= old(self).remainder.n >= 0,
                cf_reachable(gn, v0, self.br_view()),
                l1 == self.tape@.len(),
            decreases limit - l1, i128::MAX - self.remainder.n,
        {
            let ghost iter_n = self.remainder.n;
            n0 = self.remainder.n;
            l0 = l1;
            // pre-phase: advance by the estimated shortfall, in one batch,
            // as far as the index limits allow
            let want = limit - l1;
            let shortfall: usize = if want <= chunk {
                want
            } else {
                chunk
            };
            let headroom = i128::MAX - self.remainder.n;
            let loc = match gq.checked_mul(shortfall as i128) {
                Some(s) => if s <= headroom {
                    s
                } else {
                    headroom
                },
                None => headroom,
            };
            if loc >= 1 {
                let target = self.remainder.n + loc;
                if self.remainder.ab.in_dom_at(target) {
                    proof {
                        assert forall|m: int|
                            (self.remainder.n as int) < m <= (self.remainder.n as int) + (
                            loc as int) implies gn.in_dom(m) by {
                            self.remainder.ab.dom_closed(m, target as int);
                        }
                    }
                    let ghost vpre = self.br_view();
                    self.remainder.prop_bs(loc);
                    proof {
                        lemma_cf_reachable_advances(gn, vpre, loc as nat);
                        lemma_cf_reachable_trans(gn, v0, vpre, self.br_view());
                    }
                }
            }
            if self.remainder.finite() {
                let ghost vpre = self.br_view();
                self.remainder.gcd_div();
                proof {
                    lemma_reduce_matches(vpre.2, self.remainder.state());
                    lemma_cf_reachable_step(gn, vpre, CfStep::Reduce);
                    lemma_cf_reachable_trans(gn, v0, vpre, self.br_view());
                }
            }
            // extraction: small bounded advances on each disagreement
            let g0: usize = if gq < 1 {
                1
            } else if gq > 1000000 {
                1000000
            } else {
                gq as usize
            };
            let mut k: usize = 0;
            let pass = limit - l1;
            while k < pass && self.tape.len() < limit
                invariant
                    chunk < new_terms,
                    limit == old(self).tape@.len() + new_terms,
                    limit <= usize::MAX,
                    l1 < limit,
                    pass == limit - l1,
                    g0 >= 1,
                    g0 <= 1000000,
                    chunk as int <= bigw,
                    bigw == adapt_window(chunk),
                    gn == old(self).remainder.gen(),
                    v0 == old(self).br_view(),
                    self.remainder.gen() == gn,
                    self.remainder.n >= iter_n >= old(self).remainder.n >= 0,
                    cf_reachable(gn, v0, self.br_view()),
                    self.tape@.len() <= limit,
                    self.tape@.len() >= l1,
                    k <= pass,
                    self.tape@.len() > l1 || self.remainder.n > iter_n || k == 0,
                ensures
                    gn == old(self).remainder.gen(),
                    v0 == old(self).br_view(),
                    self.remainder.gen() == gn,
                    self.remainder.n >= iter_n >= old(self).remainder.n >= 0,
                    cf_reachable(gn, v0, self.br_view()),
                    self.tape@.len() <= limit,
                    self.tape@.len() > l1 || self.remainder.n > iter_n,
                decreases pass - k,
            {
                if self.remainder.n > i128::MAX - (g0 as i128) {
                    return Err(RedError::StepLimit);
                }
                let nxt = self.remainder.n + (g0 as i128);
                if !self.remainder.ab.in_dom_at(nxt) {
                    proof {
                        let nf = self.remainder.n as int;
                        if self.remainder.gen().in_dom(nf + bigw) {
                            self.remainder.ab.dom_closed(nf + g0 as int, nf + bigw);
                        }
                    }
                    return Err(RedError::StepLimit);
                }
                let ghost vpre = self.br_view();
                proof {
                    assert forall|m: int|
                        (self.remainder.n as int) < m <= (self.remainder.n as int) + prop_window(
                            g0,
                        ) implies gn.in_dom(m) by {
                        self.remainder.ab.dom_closed(m, nxt as int);
                    }
                }
                let step = self.red1(g0);
                proof {
                    lemma_cf_reachable_trans(gn, v0, vpre, self.br_view());
                }
                match step {
                    Ok(true) => {},
                    Ok(false) => {
                        k = k + 1;
                        break;
                    },
                    Err(e) => {
                        return Err(e);
                    },
                }
                k = k + 1;
            }
            l1 = self.tape.len();
            // blend the ratio estimate with this pass's observation
            steps = self.remainder.n - n0;
            if l1 > l0 {
                digits = l1 - l0;
                let fresh = steps / (digits as i128);
                let fresh1: i128 = if fresh < 1 {
                    1
                } else {
                    fresh
                };
                gq = gq / 2 + fresh1 / 2 + 1;
            } else {
                gq = if gq > i128::MAX / 2 {
                    i128::MAX / 2
                } else {
                    2 * gq
                };
            }
        }
        Ok(())
    }
}

} // verus!
