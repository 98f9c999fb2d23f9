use xprec::exp::reduce_mod_128;
use xprec::arith::{mul_qd, neg_q};
use xprec::funcs::{abs, clamp, copysign, fract, ilogb, le_q, max, min};
use xprec::Compensated;
use xprec::Df64;

fn dd(hi: f64, lo: f64) -> Df64 {
    Compensated::new(hi.to_bits(), lo.to_bits())
}

fn parts(x: Df64) -> (f64, f64) {
    (f64::from_bits(x.hi()), f64::from_bits(x.lo()))
}

#[test]
fn test_neg() {
    assert_eq!(parts(neg_q(dd(1.5, -1e-20))), (-1.5, 1e-20));
    assert_eq!(neg_q(dd(0.0, 0.0)).hi(), (-0.0f64).to_bits());
    let x = dd(3.25, 1e-17);
    assert_eq!(neg_q(neg_q(x)), x);
    assert!(f64::from_bits(neg_q(dd(f64::NAN, 0.0)).hi()).is_nan());
}

#[test]
fn test_abs_copysign() {
    assert_eq!(parts(abs(dd(-2.0, 1e-18))), (2.0, -1e-18));
    assert_eq!(parts(abs(dd(2.0, -1e-18))), (2.0, -1e-18));
    assert_eq!(abs(dd(-0.0, 0.0)).hi(), 0);
    assert_eq!(parts(copysign(dd(2.0, 1e-18), dd(-5.0, 0.0))), (-2.0, -1e-18));
    assert_eq!(parts(copysign(dd(-2.0, 1e-18), dd(-5.0, 0.0))), (-2.0, 1e-18));
    assert_eq!(parts(copysign(dd(-2.0, 1e-18), dd(0.0, 0.0))), (2.0, -1e-18));
}

#[test]
fn test_order() {
    let one = dd(1.0, 0.0);
    let one_up = dd(1.0, 1e-20);
    let two = dd(2.0, -1e-20);
    assert!(le_q(one, one_up));
    assert!(!le_q(one_up, one));
    assert!(le_q(one_up, two));
    assert!(le_q(dd(-0.0, 0.0), dd(0.0, 0.0)));
    assert!(le_q(dd(0.0, 0.0), dd(-0.0, 0.0)));
    assert!(le_q(dd(f64::NEG_INFINITY, 0.0), dd(-1e308, 0.0)));
    assert!(!le_q(dd(f64::NAN, 0.0), one));
    assert!(!le_q(one, dd(f64::NAN, 0.0)));
    assert_eq!(min(one, two), one);
    assert_eq!(max(one, two), two);
    assert_eq!(min(dd(f64::NAN, 0.0), two), two);
    assert_eq!(min(two, dd(f64::NAN, 0.0)), two);
    assert_eq!(max(dd(f64::NAN, 0.0), one), one);
    assert_eq!(max(one, dd(f64::NAN, 0.0)), one);
    assert_eq!(clamp(dd(5.0, 0.0), one, two), two);
    assert_eq!(clamp(dd(-5.0, 0.0), one, two), one);
    assert_eq!(clamp(one_up, one, two), one_up);
}

#[test]
fn test_reduce_mod_128() {
    assert_eq!(reduce_mod_128(0), (0, 0));
    assert_eq!(reduce_mod_128(63), (0, 63));
    assert_eq!(reduce_mod_128(64), (1, -64));
    assert_eq!(reduce_mod_128(-64), (0, -64));
    assert_eq!(reduce_mod_128(-65), (-1, 63));
    assert_eq!(reduce_mod_128(128 * 7 + 5), (7, 5));
    for k in -1000..1000 {
        let (m, n) = reduce_mod_128(k);
        assert_eq!(128 * m + n, k);
        assert!(-64 <= n && n < 64);
    }
}

#[test]
fn test_ilogb() {
    assert_eq!(ilogb(dd(1.0, 1e-20)), 0);
    assert_eq!(ilogb(dd(0.75, 0.0)), -1);
    assert_eq!(ilogb(dd(-1024.5, 0.0)), 10);
    assert_eq!(ilogb(dd(f64::MAX, 0.0)), 1023);
    assert_eq!(ilogb(dd(f64::MIN_POSITIVE, 0.0)), -1022);
    assert_eq!(ilogb(dd(5e-324, 0.0)), -1074);
    assert_eq!(ilogb(dd(f64::MIN_POSITIVE / 256.0, 0.0)), -1030);
    assert_eq!(ilogb(dd(0.0, 0.0)), i32::MIN);
    assert_eq!(ilogb(dd(-0.0, 0.0)), i32::MIN);
    assert_eq!(ilogb(dd(f64::NAN, 0.0)), i32::MIN);
    assert_eq!(ilogb(dd(f64::INFINITY, 0.0)), i32::MAX);
    assert_eq!(ilogb(dd(f64::NEG_INFINITY, 0.0)), i32::MAX);
}

/// The fractional part: the library's result is that of the algorithm in
/// hardware binary64, and it lies within `scale` ulps of the fractional
/// part of each part summed.
fn check_fract(x: Df64, scale: f64) {
    let (hi, lo) = parts(x);
    let r = parts(fract(x));
    let s = hi.fract() + lo.fract();
    let expect = (s, lo.fract() - (s - hi.fract()));
    assert!(r.0.to_bits() == expect.0.to_bits() && r.1.to_bits() == expect.1.to_bits(),
            "fract({:e}, {:e})", hi, lo);
    let diff = (r.0 - (hi.fract() + lo.fract())).abs();
    assert!(diff <= scale * f64::EPSILON * r.0.abs().max(f64::MIN_POSITIVE), "fract({:e})", hi);
}

#[test]
fn test_fract() {
    let mut x = dd(1e-30, 0.0);
    while parts(x).0 < 1e14 {
        let scale = parts(x).0.abs().max(1.0);
        check_fract(x, scale);
        check_fract(neg_q(x), scale);
        x = mul_qd(x, 1.0141f64.to_bits());
    }
}
