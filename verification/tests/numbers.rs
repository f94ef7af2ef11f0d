use postfix_csv::numtext::render_num;
use postfix_csv::rational::Num;

#[test]
fn ratio_reduces_to_canonical_form_test() {
    assert_eq!(Num::ratio(6, 2).unwrap(), Num::from_int(3));
    assert_eq!(Num::ratio(2, -4).unwrap(), Num::ratio(-1, 2).unwrap());
    assert_eq!(Num::ratio(0, 7).unwrap(), Num::from_int(0));
    assert_eq!(Num::ratio(2, 25).unwrap().numerator(), 2);
    assert_eq!(Num::ratio(2, 25).unwrap().denominator(), 25);
    assert_eq!(Num::ratio(5, 0), None);
}

#[test]
fn arithmetic_is_exact_test() {
    let a = Num::ratio(1, 3).unwrap();
    let b = Num::ratio(1, 6).unwrap();
    assert_eq!(a.add(&b), Some(Num::ratio(1, 2).unwrap()));
    assert_eq!(a.sub(&b), Some(Num::ratio(1, 6).unwrap()));
    assert_eq!(a.mul(&b), Some(Num::ratio(1, 18).unwrap()));
    assert_eq!(a.div(&b), Some(Num::from_int(2)));
    // A tenth plus two tenths is exactly three tenths.
    let t1 = Num::ratio(1, 10).unwrap();
    let t2 = Num::ratio(2, 10).unwrap();
    assert_eq!(t1.add(&t2), Some(Num::ratio(3, 10).unwrap()));
}

#[test]
fn addition_overflow_is_reported_test() {
    let big = Num::ratio(170141183460469231731687303715884105727i128, 1).unwrap();
    assert_eq!(big.add(&big), None);
    assert_eq!(big.mul(&Num::from_int(2)), None);
    assert_eq!(big.sub(&big), Some(Num::from_int(0)));
}

#[test]
fn render_integer_and_decimal_test() {
    assert_eq!(render_num(&Num::from_int(0)), "0");
    assert_eq!(render_num(&Num::from_int(-8)), "-8");
    assert_eq!(render_num(&Num::from_int(14)), "14");
    assert_eq!(render_num(&Num::ratio(7, 2).unwrap()), "3.5");
    assert_eq!(render_num(&Num::ratio(-21, 2).unwrap()), "-10.5");
    assert_eq!(render_num(&Num::ratio(1, 8).unwrap()), "0.125");
    assert_eq!(render_num(&Num::ratio(2, 25).unwrap()), "0.08");
    assert_eq!(render_num(&Num::ratio(1234, 1000).unwrap()), "1.234");
}

#[test]
fn render_non_terminating_as_fraction_test() {
    assert_eq!(render_num(&Num::ratio(1, 3).unwrap()), "1/3");
    assert_eq!(render_num(&Num::ratio(-5, 7).unwrap()), "-5/7");
}
