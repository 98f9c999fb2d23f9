use xprec::arith::{div_qd, mul_qd, neg_q};
use xprec::checks::is_infinite;
use xprec::roots::{hypot, inv_sqrt};
use xprec::{Compensated, Df64};

fn dd(hi: f64, lo: f64) -> Df64 {
    Compensated::new(hi.to_bits(), lo.to_bits())
}

fn parts(x: Df64) -> (f64, f64) {
    (f64::from_bits(x.hi()), f64::from_bits(x.lo()))
}

/// Fixed point with 120 fractional bits.
const FRAC: u32 = 120;

/// `(a * b) >> FRAC` for `a, b < 2^124`, where the result fits.
fn mul_fixed(a: i128, b: i128) -> i128 {
    let m64: u128 = (1u128 << 64) - 1;
    let (ua, ub) = (a.unsigned_abs(), b.unsigned_abs());
    let (a1, a0) = (ua >> 64, ua & m64);
    let (b1, b0) = (ub >> 64, ub & m64);
    let p00 = a0 * b0;
    let p01 = a0 * b1;
    let p10 = a1 * b0;
    let p11 = a1 * b1;
    let mid = (p00 >> 64) + (p01 & m64) + (p10 & m64);
    let lo = (p00 & m64) | ((mid & m64) << 64);
    let hi = p11 + (p01 >> 64) + (p10 >> 64) + (mid >> 64);
    let r = ((hi << (128 - FRAC)) | (lo >> FRAC)) as i128;
    if (a < 0) != (b < 0) { -r } else { r }
}

/// `x * 2^shift` in fixed point, truncated.
fn fixed(x: f64, shift: i32) -> i128 {
    if x == 0.0 {
        return 0;
    }
    let bits = x.to_bits();
    let exp = ((bits >> 52) & 0x7ff) as i32;
    let frac = (bits & 0xf_ffff_ffff_ffff) as i128;
    let (m, e) = if exp == 0 { (frac, -1074) } else { (frac | (1 << 52), exp - 1075) };
    let s = e + shift + FRAC as i32;
    let v = if s >= 0 { m << s } else if s > -127 { m >> (-s) } else { 0 };
    if x < 0.0 { -v } else { v }
}

fn fixed_dd(x: (f64, f64), shift: i32) -> i128 {
    fixed(x.0, shift) + fixed(x.1, shift)
}

/// The exponent that brings `x` into `[1, 2)`.
fn scale_of(x: f64) -> i32 {
    -(x.abs().log2().floor() as i32)
}

/// Checks `r = hypot(x, y)` by its square: `r^2` is within `ulps` epsilon
/// squared of `x^2 + y^2`.
fn check_hypot(x: Df64, y: Df64, ulps: f64) {
    let (px, py) = (parts(x), parts(y));
    let r = parts(hypot(x, y));
    let e = scale_of(px.0.abs().max(py.0.abs()));
    let (fx, fy, fr) = (fixed_dd(px, e), fixed_dd(py, e), fixed_dd(r, e));
    let sum = mul_fixed(fx, fx) + mul_fixed(fy, fy);
    let r2 = mul_fixed(fr, fr);
    let diff = (r2 - sum).abs() as f64;
    let bound = ulps * f64::EPSILON * f64::EPSILON * (r2 as f64) + 64.0;
    assert!(diff <= bound, "hypot({:?}, {:?}) = {:?}", px, py, r);
}

#[test]
fn test_hypot() {
    let inf = dd(f64::INFINITY, 0.0);
    let eps = dd(f64::EPSILON * f64::EPSILON / 2.0, 0.0);
    assert!(is_infinite(hypot(inf, eps)));
    assert!(is_infinite(hypot(eps, neg_q(inf))));
    assert!(is_infinite(hypot(inf, inf)));

    let one = dd(1.0, 0.0);
    check_hypot(one, one, 1.5);
    check_hypot(dd(3.0, 0.0), dd(-10000.0, 0.0), 1.5);
    check_hypot(dd(1e249, 0.0), dd(1e241, 0.0), 1.5);
    check_hypot(dd(1e241, 0.0), dd(-1e249, 0.0), 1.5);
    check_hypot(dd(1e-251, 0.0), dd(1e-259, 0.0), 1.5);
    check_hypot(dd(-1e-259, 0.0), dd(1e-248, 0.0), 1.5);

    let mut x = dd(10.0, 0.0);
    while parts(x).0 > 5.0 {
        let mut y = x;
        while parts(y).0 > 1e-35 {
            check_hypot(x, y, 1.5);
            y = mul_qd(y, 0.9383f64.to_bits());
        }
        x = mul_qd(x, 0.9933f64.to_bits());
    }
}

/// Checks `y = inv_sqrt(x)` by `y^2 * x`, which is within `2 * ulps`
/// epsilon squared of one.
fn check_inv_sqrt(x: Df64, ulps: f64) {
    let px = parts(x);
    let y = parts(inv_sqrt(x));
    let (ex, ey) = (scale_of(px.0), scale_of(y.0));
    let (fx, fy) = (fixed_dd(px, ex), fixed_dd(y, ey));
    let p = mul_fixed(mul_fixed(fy, fy), fx);
    // y^2 x = 1 means p = 2^(2 ey + ex) in fixed point
    let target: i128 = 1i128 << (FRAC as i32 + 2 * ey + ex);
    let diff = (p - target).abs() as f64;
    let bound = 2.0 * ulps * f64::EPSILON * f64::EPSILON * (target as f64) + 64.0;
    assert!(diff <= bound, "inv_sqrt({:?}) = {:?}", px, y);
}

#[test]
fn test_roots_q() {
    let mut x = dd(1.0, 0.0);
    while parts(x).0 > 1e-290 {
        check_inv_sqrt(x, 2.0);
        x = mul_qd(x, 0.992f64.to_bits());
    }

    x = dd(1.0, 0.0);
    while parts(x).0 < 1e290 {
        check_inv_sqrt(x, 2.0);
        x = div_qd(x, 0.992f64.to_bits());
    }
}

#[test]
fn test_inv_sqrt_special() {
    assert_eq!(parts(inv_sqrt(dd(4.0, 0.0))), (0.5, 0.0));
    assert_eq!(parts(inv_sqrt(dd(0.0, 0.0))).0, f64::INFINITY);
    assert!(parts(inv_sqrt(dd(-1.0, 0.0))).0.is_nan());
    assert_eq!(parts(inv_sqrt(dd(f64::INFINITY, 0.0))).0, 0.0);
}
