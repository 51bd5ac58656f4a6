use rug::Integer;

use k_log::{Frac, KFrac, KLog, RedError, RegFrac};
use k_log::math_consts::{EGen, Sqrt2Gen};

fn frac_is(f: &Frac, n: i128, d: i128) -> bool {
    f.num == Integer::from(n) && f.den == Integer::from(d)
}

#[test]
fn gcd_reduce_idempotent() {
    let mut f = Frac::from_i128(6, 4);
    f.gcd_div();
    assert!(frac_is(&f, 3, 2));
    f.gcd_div();
    assert!(frac_is(&f, 3, 2));
    let mut g = Frac::from_i128(-30, 12);
    g.gcd_div();
    assert!(frac_is(&g, -5, 2));
    g.gcd_div();
    assert!(frac_is(&g, -5, 2));
}

#[test]
fn inv_involution() {
    let mut f = Frac::from_i128(355, 113);
    f.inv();
    assert!(frac_is(&f, 113, 355));
    f.inv();
    assert!(frac_is(&f, 355, 113));
}

#[test]
fn frac_predicates() {
    assert!(Frac::from_i128(3, 2).atleast1());
    assert!(!Frac::from_i128(3, 2).atleast2());
    assert!(Frac::from_i128(4, 2).atleast2());
    assert!(Frac::from_i128(1, 0).atleast1());
    assert!(Frac::from_i128(1, 0).atleast2());
    assert!(!Frac::from_i128(1, 0).finite());
    // an infinite value satisfies both predicates whatever the numerator's sign
    assert!(Frac::from_i128(-1, 0).atleast1());
    assert!(Frac::from_i128(-1, 0).atleast2());
    // negative denominators read with their sign
    assert!(Frac::from_i128(-3, -2).atleast1());
    assert!(Frac::from_i128(-4, -2).atleast2());
    assert!(!Frac::from_i128(3, -2).atleast1());
}

#[test]
fn regular_cf_of_355_113() {
    let mut r = RegFrac::from(Frac::from_i128(355, 113));
    assert!(r.red().is_ok());
    assert_eq!(r.tape, vec![3u128, 7, 16]);
    assert!(!r.remainder.finite());
}

#[test]
fn regular_cf_term_too_large() {
    let huge = Integer::from(1) << 130;
    let mut r = RegFrac::from(Frac::from_int(huge, Integer::from(1)));
    assert_eq!(r.red1(), Err(RedError::TermTooLarge));
    assert!(r.tape.is_empty());
}

#[test]
fn regular_cf_negative_quotient_is_reported() {
    let mut r = RegFrac::from(Frac::from_i128(-7, 2));
    assert_eq!(r.red1(), Err(RedError::TermTooLarge));
}

#[test]
fn bracket_cf_sqrt2_digits() {
    let mut r = RegFrac::from(KFrac::from(Sqrt2Gen));
    assert!(r.red(5, None).is_ok());
    assert_eq!(r.tape, vec![1u128, 2, 2, 2, 2]);
}

#[test]
fn bracket_cf_agreement_guard() {
    let mut r = RegFrac::from(KFrac::from(Sqrt2Gen));
    // while the convergents disagree, nothing is emitted and the bracket
    // advances by at least one step per attempt
    let mut advances = 0;
    loop {
        let n_before = r.remainder.n;
        match r.red1(1) {
            Ok(true) => break,
            Ok(false) => {
                assert!(r.tape.is_empty());
                assert!(r.remainder.n > n_before);
                advances += 1;
                assert!(advances < 100);
            }
            Err(e) => panic!("unexpected failure: {:?}", e),
        }
    }
    assert_eq!(r.tape, vec![1u128]);
}

#[test]
fn bracket_cf_step_limit() {
    let mut r = RegFrac::from(KFrac::from(Sqrt2Gen));
    r.remainder.n = i128::MAX;
    assert_eq!(r.red(1, None), Err(RedError::StepLimit));
}

#[test]
fn bracket_cf_domain_edge() {
    // a generator with a bounded index domain makes the driver stop at the
    // domain's edge instead of overrunning it
    let mut r = RegFrac::from(KFrac::from(k_log::math_consts::Pi2Gen));
    r.remainder.n = 100_000;
    assert_eq!(r.red(3, None), Err(RedError::StepLimit));
    assert_eq!(r.red_adapt(3, 1), Err(RedError::StepLimit));
}

#[test]
fn zero_request_succeeds() {
    let mut r = RegFrac::from(KFrac::from(Sqrt2Gen));
    assert!(r.red(0, None).is_ok());
    assert!(r.red_adapt(0, 4).is_ok());
    assert!(r.tape.is_empty());
    let mut x = k_log::KLog::from(KFrac::from(Sqrt2Gen));
    assert!(x.red(0, None).is_ok());
    assert!(x.tape.is_empty());
    assert!(!x.done);
}

#[test]
fn scheduler_invariance_regular() {
    let mut a = RegFrac::from(KFrac::from(EGen));
    let mut b = RegFrac::from(KFrac::from(EGen));
    let mut c = RegFrac::from(KFrac::from(EGen));
    assert!(a.red(20, None).is_ok());
    assert!(b.red(20, Some(3)).is_ok());
    assert!(c.red_adapt(20, 5).is_ok());
    assert_eq!(a.tape, b.tape);
    assert_eq!(a.tape.len(), 20);
    assert_eq!(c.tape[..20], a.tape[..20]);
}

#[test]
fn bracket_cf_known_constants() {
    let mut e = RegFrac::from(KFrac::from(k_log::math_consts::EGen));
    assert!(e.red(9, None).is_ok());
    assert_eq!(e.tape, vec![2u128, 1, 2, 1, 1, 4, 1, 1, 6]);
    let mut pi = RegFrac::from(KFrac::from(k_log::math_consts::PiGen));
    assert!(pi.red(5, None).is_ok());
    assert_eq!(pi.tape, vec![3u128, 7, 15, 1, 292]);
    let mut gold = RegFrac::from(KFrac::from(k_log::math_consts::GoldGen));
    assert!(gold.red(6, None).is_ok());
    assert_eq!(gold.tape, vec![1u128, 1, 1, 1, 1, 1]);
}

#[test]
fn adaptive_small_request_delegates() {
    let mut a = RegFrac::from(KFrac::from(Sqrt2Gen));
    assert!(a.red_adapt(4, 10).is_ok());
    assert_eq!(a.tape, vec![1u128, 2, 2, 2]);
}
