use rug::Integer;

use k_log::{Frac, KFrac, KLog};
use k_log::math_consts::Sqrt2Gen;

fn frac_is(f: &Frac, n: i128, d: i128) -> bool {
    f.num == Integer::from(n) && f.den == Integer::from(d)
}

#[test]
fn cl_of_three_terminates() {
    let mut x = KLog::from_i128(3, 1);
    x.red();
    assert!(x.done);
    assert!(!x.remainder.finite());
    assert_eq!(x.tape, vec![1u8, 0, 1, 0]);
}

#[test]
fn cl_tape_renderings() {
    let mut x = KLog::from_i128(3, 1);
    x.red();
    assert_eq!(x.tape_str(), "1010");
    assert_eq!(x.pretty(), "\u{25b3}\u{25cb}\u{25b3}\u{25cb}\u{25a1}");
    assert_eq!(x.gen_tape(), vec![1u128, 1]);
}

#[test]
fn cl_gen_tape_trailing_run() {
    let mut x = KLog::from_i128(8, 1);
    x.red();
    // 8 = 2^3: three halvings then the closing of the exact value 1
    assert_eq!(x.tape, vec![1u8, 1, 1, 0]);
    assert_eq!(x.gen_tape(), vec![3u128]);
    let y = KLog::from_i128(9, 5);
    assert_eq!(y.gen_tape(), Vec::<u128>::new());
}

#[test]
fn cl_round_trip() {
    let mut x = KLog::from_i128(355, 113);
    x.red();
    let tape = x.tape_str();
    let parsed = KLog::<Frac>::parse(tape).expect("a closed tape parses");
    assert!(frac_is(&parsed.0, 355, 113));
    assert!(frac_is(&parsed.1, 355, 113));
}

#[test]
fn cl_parse_of_known_tape() {
    let parsed = KLog::<Frac>::parse(String::from("1010")).expect("parses");
    assert!(frac_is(&parsed.0, 3, 1));
    assert!(frac_is(&parsed.1, 3, 1));
}

#[test]
fn cl_parse_incomplete_tape_gives_interval() {
    let parsed = KLog::<Frac>::parse(String::from("11")).expect("parses");
    assert!(frac_is(&parsed.0, 1, 0));
    assert!(frac_is(&parsed.1, 4, 1));
}

#[test]
fn cl_parse_rejects_bad_input() {
    assert!(KLog::<Frac>::parse(String::new()).is_none());
    assert!(KLog::<Frac>::parse(String::from("2")).is_none());
    assert!(KLog::<Frac>::parse(String::from("10x0")).is_none());
}

#[test]
fn cl_bracket_reduction_matches_scalar() {
    // drive the bracket for sqrt(2) and check the digits against a scalar
    // reduction of a far convergent of the same value
    let mut b = KLog::from(KFrac::from(Sqrt2Gen));
    b.red(12, None).expect("digits come out");
    assert_eq!(b.tape.len(), 12);
    // 577/408 is a convergent of sqrt(2) good to ~1e-5
    let mut s = KLog::from_i128(577, 408);
    s.red();
    assert_eq!(&b.tape[..12], &s.tape[..12]);
}

#[test]
fn cl_bracket_scheduler_invariance() {
    let mut a = KLog::from(KFrac::from(Sqrt2Gen));
    let mut b = KLog::from(KFrac::from(Sqrt2Gen));
    a.red(15, None).expect("digits");
    b.red(7, Some(4)).expect("digits");
    b.red(8, Some(2)).expect("digits");
    assert_eq!(a.tape, b.tape);
}

#[test]
fn cl_from_reduces_by_gcd() {
    let x = KLog::from_i128(6, 4);
    assert!(frac_is(&x.remainder, 3, 2));
    let y = KLog::from_int(Integer::from(10), Integer::from(15));
    assert!(frac_is(&y.remainder, 2, 3));
}
