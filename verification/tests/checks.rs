use xprec::arith::{add_dq, add_qd, add_qq, div_qq, mul_dq, mul_qq, neg_q, sub_qd};
use xprec::funcs::ldexp;
use xprec::checks::{
    classify, is_finite, is_infinite, is_nan, is_normal, is_sign_negative, is_subnormal, is_zero,
    isclose_qq, FpCategory,
};
use xprec::Compensated;
use xprec::Df64;

fn dd(hi: f64, lo: f64) -> Df64 {
    Compensated::new(hi.to_bits(), lo.to_bits())
}

// The double-double constants, part by part.
const EPS_HI: f64 = f64::EPSILON * f64::EPSILON / 2.0;
const MIN_EXP: i32 = f64::MIN_EXP + f64::MANTISSA_DIGITS as i32 - 2;

fn min_positive() -> Df64 {
    dd(f64::MIN_POSITIVE / f64::EPSILON, 0.0)
}

fn check_class(x: Df64, cat: FpCategory) {
    assert!(is_normal(x) == (cat == FpCategory::Normal));
    assert!(is_subnormal(x) == (cat == FpCategory::Subnormal));
    assert!(is_nan(x) == (cat == FpCategory::Nan));
    assert!(is_zero(x) == (cat == FpCategory::Zero));
    assert!(is_infinite(x) == (cat == FpCategory::Infinite));

    let cat_finite = cat != FpCategory::Infinite && cat != FpCategory::Nan;
    assert!(is_finite(x) == cat_finite);
}

#[test]
fn test_class() {
    let one = dd(1.0, 0.0);
    let eps = dd(EPS_HI, 0.0);
    check_class(add_qq(dd(-1.0, 0.0), eps), FpCategory::Normal);
    check_class(eps, FpCategory::Normal);

    // Check min
    let min = dd(f64::MIN, f64::MIN * f64::EPSILON / 4.0);
    check_class(min, FpCategory::Normal);
    check_class(mul_qq(add_dq(1.0f64.to_bits(), eps), min), FpCategory::Infinite);
    check_class(mul_qq(add_dq(1.0f64.to_bits(), dd(EPS_HI / 8.0, 0.0)), min), FpCategory::Normal);

    // Check min exp
    check_class(ldexp(dd(1.1, 0.0), MIN_EXP), FpCategory::Normal);
    check_class(ldexp(dd(0.9, 0.0), MIN_EXP), FpCategory::Subnormal);

    // Check max
    let max = dd(f64::MAX, f64::MAX * f64::EPSILON / 4.0);
    check_class(max, FpCategory::Normal);
    check_class(mul_qq(add_dq(1.0f64.to_bits(), eps), max), FpCategory::Infinite);
    check_class(mul_qq(add_dq(1.0f64.to_bits(), dd(EPS_HI / 8.0, 0.0)), max), FpCategory::Normal);

    // Check max exp
    check_class(ldexp(dd(0.9, 0.0), f64::MAX_EXP), FpCategory::Normal);
    check_class(ldexp(one, f64::MAX_EXP), FpCategory::Infinite);

    // Check min positive
    let mp = min_positive();
    check_class(mp, FpCategory::Normal);
    check_class(mul_dq((1.0 + f64::EPSILON).to_bits(), mp), FpCategory::Normal);
    check_class(mul_dq((1.0 - f64::EPSILON).to_bits(), mp), FpCategory::Subnormal);

    // Check nan
    check_class(dd(f64::NAN, 0.0), FpCategory::Nan);
    check_class(neg_q(dd(f64::NAN, 0.0)), FpCategory::Nan);
    check_class(div_qq(dd(f64::NAN, 0.0), dd(f64::NAN, 0.0)), FpCategory::Nan);

    // check zero
    check_class(dd(0.0, 0.0), FpCategory::Zero);
    check_class(dd(-0.0, 0.0), FpCategory::Zero);
}

#[test]
fn test_classify_leading_part() {
    assert_eq!(classify(dd(1.0, 0.0)), FpCategory::Normal);
    assert_eq!(classify(dd(f64::MIN_POSITIVE / 2.0, 0.0)), FpCategory::Subnormal);
    assert_eq!(classify(dd(-0.0, 0.0)), FpCategory::Zero);
    assert_eq!(classify(dd(f64::NEG_INFINITY, 0.0)), FpCategory::Infinite);
    assert_eq!(classify(dd(f64::NAN, 0.0)), FpCategory::Nan);
    // The leading part alone decides `classify`, while `is_normal` also
    // asks that the compensate can be normal.
    let small = dd(f64::MIN_POSITIVE * 2.0, 0.0);
    assert_eq!(classify(small), FpCategory::Normal);
    assert!(!is_normal(small));
    assert!(is_subnormal(small));
}

#[test]
fn test_normal_boundary() {
    // The smallest leading part whose product with the machine epsilon is
    // still normal is 2^-970; just below it the product rounds to a
    // subnormal, except where it rounds up to 2^-1022.
    let p = 2f64.powi(-970);
    assert!(is_normal(dd(p, 0.0)));
    assert!(is_subnormal(dd(p * (1.0 - f64::EPSILON / 2.0), 0.0)) == false);
    assert!(is_normal(dd(p * (1.0 - f64::EPSILON / 2.0), 0.0)));
    assert!(is_subnormal(dd(p * (1.0 - f64::EPSILON), 0.0)));
    assert!(!is_normal(dd(p * (1.0 - f64::EPSILON), 0.0)));
    // A subnormal leading part.
    assert!(is_subnormal(dd(5e-324, 0.0)));
    assert!(!is_subnormal(dd(0.0, 0.0)));
}

#[test]
fn test_sign_negative() {
    assert!(is_sign_negative(dd(-1.0, 1e-20)));
    assert!(!is_sign_negative(dd(1.0, -1e-20)));
    assert!(is_sign_negative(dd(-0.0, 0.0)));
    assert!(!is_sign_negative(dd(0.0, -0.0)));
    assert!(is_sign_negative(dd(-f64::NAN, 0.0)));
}

fn b(x: f64) -> u64 {
    x.to_bits()
}

#[test]
fn test_isclose() {
    let zero = dd(0.0, 0.0);
    let one = dd(1.0, 0.0);
    assert!(isclose_qq(zero, zero, b(0.0), b(0.0)));
    assert!(isclose_qq(one, add_qd(one, b(1e-30)), b(1e-29), b(0.0)));
    assert!(isclose_qq(one, add_qd(one, b(1e-30)), b(0.0), b(1e-29)));
    assert!(!isclose_qq(one, sub_qd(one, b(1e-30)), b(1e-31), b(0.0)));
    assert!(!isclose_qq(one, sub_qd(one, b(1e-30)), b(0.0), b(1e-31)));

    // relative comparison with the defaults: the smallest positive normal
    // number as absolute tolerance, three epsilons as relative tolerance
    let min_pos = f64::from_bits(min_positive().hi());
    assert!(isclose_qq(one, add_qd(one, b(3e-32)), b(min_pos), b(3.0 * EPS_HI)));
}

#[test]
fn test_isclose_tolerances() {
    let one = dd(1.0, 0.0);
    let two = dd(2.0, 0.0);
    // NaN tolerances give way to the other one
    assert!(isclose_qq(one, two, b(f64::NAN), b(0.6)));
    assert!(!isclose_qq(one, two, b(f64::NAN), b(0.4)));
    // NaN arguments are never close
    assert!(!isclose_qq(dd(f64::NAN, 0.0), one, b(1.0), b(1.0)));
    // the order of the arguments does not matter
    assert_eq!(isclose_qq(one, two, b(1.0), b(0.0)), isclose_qq(two, one, b(1.0), b(0.0)));
    assert!(isclose_qq(one, two, b(1.0), b(0.0)));
    assert!(!isclose_qq(one, two, b(0.99), b(0.0)));
}
