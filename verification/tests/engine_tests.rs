use rug::Integer;

use k_log::{Frac, KFrac, Series};
use k_log::series::HalfSeries;
use k_log::math_consts::{
    e2_ab, e_ab, gold_ab, log2_ab, pi2_ab, pi_ab, sqrt13_ab, sqrt2_ab, zeta2_ab, zeta3_ab,
    EGen, E2Gen, Pi2Gen, PiGen, Sqrt2Gen, Zeta2Gen, Zeta3Gen,
};

fn frac_is(f: &Frac, n: i128, d: i128) -> bool {
    f.num == Integer::from(n) && f.den == Integer::from(d)
}

#[test]
fn generator_values() {
    assert_eq!(sqrt2_ab(0), (1, 1));
    assert_eq!(sqrt2_ab(7), (1, 2));
    assert_eq!(sqrt13_ab(0), (1, 3));
    assert_eq!(sqrt13_ab(9), (1, 6));
    assert_eq!(sqrt13_ab(7), (1, 1));
    assert_eq!(gold_ab(5), (1, 1));
    assert_eq!(e_ab(0), (1, 2));
    assert_eq!(e_ab(3), (1, 1));
    assert_eq!(e_ab(5), (1, 4));
    assert_eq!(e2_ab(4), (3, 4));
    assert_eq!(pi_ab(1), (4, 1));
    assert_eq!(pi_ab(9), (64, 17));
    assert_eq!(pi2_ab(1), (1008, -168));
    assert_eq!(pi2_ab(2), (3696, 4));
    assert_eq!(pi2_ab(3), (5076, 1602));
    assert_eq!(log2_ab(7), (-36, 39));
    assert_eq!(zeta2_ab(5), (256, 223));
    assert_eq!(zeta3_ab(2), (-1, 117));
    assert_eq!(zeta3_ab(4), (-729, 1463));
}

#[test]
fn batch_advance_equals_single_steps() {
    // exact equality of all four state integers, odd and even batch sizes,
    // several generators
    check_batch(Sqrt2Gen, 7);
    check_batch(Sqrt2Gen, 8);
    check_batch(EGen, 5);
    check_batch(E2Gen, 9);
    check_batch(PiGen, 6);
    check_batch(Pi2Gen, 3);
    check_batch(Zeta2Gen, 4);
    check_batch(Zeta3Gen, 5);
}

fn check_batch<G: k_log::TermGen + Copy>(g: G, k: i128) {
    let mut singles = KFrac::from(g);
    let mut batched = KFrac::from(g);
    // an offset so the range does not start at the seed
    for _ in 0..3 {
        singles.prop();
        batched.prop();
    }
    for _ in 0..k {
        singles.prop();
    }
    batched.prop_bs(k);
    assert_eq!(singles.n, batched.n);
    assert_eq!(singles.frac1.num, batched.frac1.num);
    assert_eq!(singles.frac1.den, batched.frac1.den);
    assert_eq!(singles.frac2.num, batched.frac2.num);
    assert_eq!(singles.frac2.den, batched.frac2.den);
}

#[test]
fn bracket_predicates_and_reduction() {
    let mut w = KFrac::from(Sqrt2Gen);
    assert!(w.finite());
    assert_eq!(w.n, 0);
    assert!(frac_is(&w.frac1, 1, 0));
    assert!(frac_is(&w.frac2, 1, 1));
    w.prop();
    // state becomes frac1 = 1/1, frac2 = 3/2
    assert!(frac_is(&w.frac1, 1, 1));
    assert!(frac_is(&w.frac2, 3, 2));
    assert_eq!(w.atleast1(), (true, true));
    assert_eq!(w.atleast2(), (false, false));
    // scale all four by 3, then reduce by the common gcd
    for f in [&mut w.frac1, &mut w.frac2] {
        f.num *= 3;
        f.den *= 3;
    }
    w.gcd_div();
    assert!(frac_is(&w.frac1, 1, 1));
    assert!(frac_is(&w.frac2, 3, 2));
}

#[test]
fn stats_of_fresh_and_advanced_bracket() {
    let w = KFrac::from(Sqrt2Gen);
    let (bits, err) = w.stats();
    assert_eq!(bits, 0);
    assert!(frac_is(&err, 1, 0));
    let mut w = KFrac::from(Sqrt2Gen);
    w.prop();
    // frac1 = 1/1, frac2 = 3/2: whole = 1 bit, err = 1/2
    let (bits, err) = w.stats();
    assert_eq!(bits, 3);
    assert!(frac_is(&err, 1, 2));
}

#[test]
fn series_partial_sums() {
    let mut s = Series::from(HalfSeries);
    assert_eq!(s.n, 0);
    assert!(frac_is(&s.sum, 1, 1));
    s.prop();
    assert!(frac_is(&s.curr, 1, 2));
    assert!(frac_is(&s.sum, 3, 2));
    s.prop();
    assert!(frac_is(&s.curr, 1, 4));
    assert!(frac_is(&s.sum, 14, 8));
    let e = s.error();
    assert!(frac_is(&e, 1, 4));
}
