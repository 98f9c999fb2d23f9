use xprec::arith::{mul_qd, neg_q};
use xprec::exp::{
    expm1_alphas, expm1_kernel, expm1_split, reciprocal_factorial, reduce_mod_128, reduction_ok,
};
use xprec::{Compensated, Df64};

fn dd(hi: f64, lo: f64) -> Df64 {
    Compensated::new(hi.to_bits(), lo.to_bits())
}

fn parts(x: Df64) -> (f64, f64) {
    (f64::from_bits(x.hi()), f64::from_bits(x.lo()))
}

/// Fixed point with 115 fractional bits.
const FRAC: u32 = 115;

/// `(a * b) >> s` for `a, b < 2^127`, where the result fits.
fn mul_shift(a: u128, b: u128, s: u32) -> u128 {
    let m64: u128 = (1u128 << 64) - 1;
    let (a1, a0) = (a >> 64, a & m64);
    let (b1, b0) = (b >> 64, b & m64);
    let p00 = a0 * b0;
    let p01 = a0 * b1;
    let p10 = a1 * b0;
    let p11 = a1 * b1;
    let mid = (p00 >> 64) + (p01 & m64) + (p10 & m64);
    let lo = (p00 & m64) | ((mid & m64) << 64);
    let hi = p11 + (p01 >> 64) + (p10 >> 64) + (mid >> 64);
    (hi << (128 - s)) | (lo >> s)
}

/// `m * 2^e` as a signed fixed-point number with FRAC fractional bits,
/// truncated.
fn fixed(x: f64, shift: i32) -> i128 {
    if x == 0.0 {
        return 0;
    }
    let bits = x.to_bits();
    let exp = ((bits >> 52) & 0x7ff) as i32;
    let frac = (bits & 0xf_ffff_ffff_ffff) as i128;
    let (m, e) = if exp == 0 { (frac, -1074) } else { (frac | (1 << 52), exp - 1075) };
    let s = e + shift + FRAC as i32;
    let v = if s >= 0 { m << s } else if s > -127 { m >> (-s) } else { 0 };
    if x < 0.0 { -v } else { v }
}

/// Checks `expm1_kernel(x, 6, 10)` against the Taylor series of `expm1`
/// summed in fixed point, relative to `x`: the result is within `ulps`
/// times epsilon squared of it.
fn check_kernel(x: Df64, ulps: f64) {
    let (xh, xl) = parts(x);
    // Scale so that |x| lies in [1, 2).
    let e = -(xh.abs().log2().floor() as i32);
    let xs = fixed(xh, e) + fixed(xl, e);
    let xa = fixed(xh, 0) + fixed(xl, 0);
    // S = sum of x^(k-1) / k!
    let one: i128 = 1i128 << FRAC;
    let mut term: i128 = one;
    let mut sum: i128 = one;
    for k in 2..30 {
        let mag = mul_shift(term.unsigned_abs(), xa.unsigned_abs(), FRAC) / k as u128;
        let negative = (term < 0) != (xa < 0);
        term = if negative { -(mag as i128) } else { mag as i128 };
        sum += term;
    }
    let reference = mul_shift(xs.unsigned_abs(), sum as u128, FRAC) as i128
        * if xs < 0 { -1 } else { 1 };
    let (kh, kl) = parts(expm1_kernel(x, 6, 10));
    let result = fixed(kh, e) + fixed(kl, e);
    let diff = (result - reference).abs() as f64;
    let bound = ulps * f64::EPSILON * f64::EPSILON * (result.abs() as f64) + 16.0;
    assert!(diff <= bound, "expm1_kernel({:e}, {:e}): off by {:e} of {:e}", xh, xl, diff, bound);
}

#[test]
fn test_expm1_kernel() {
    // small values, start from ALPHA/2
    let mut x = dd(0.0025, 0.0);
    while parts(x).0 > 1e-290 {
        check_kernel(x, 1.1);
        check_kernel(neg_q(x), 1.1);
        x = mul_qd(x, 0.947f64.to_bits());
    }
}

#[test]
fn test_tables() {
    assert_eq!(parts(reciprocal_factorial(0)), (1.0, 0.0));
    assert_eq!(parts(reciprocal_factorial(3)), (0.16666666666666666, 9.25185853854297e-18));
    assert_eq!(parts(reciprocal_factorial(29)).0, 1.1309962886447716e-31);
    assert_eq!(parts(expm1_alphas(0)), (0.0, 0.0));
    assert_eq!(parts(expm1_alphas(-64)), (-0.2928932188134525, 7.174684663993261e-18));
    assert_eq!(parts(expm1_alphas(63)), (0.40657599381901544, 7.034914812136422e-18));
    // exp(64 alpha) = sqrt(2)
    let (h, _) = parts(expm1_alphas(-64));
    assert!((1.0 + h - std::f64::consts::FRAC_1_SQRT_2).abs() < 2.5e-16);
}

#[test]
fn test_expm1_split() {
    assert_eq!(reduce_mod_128(130), (1, 2));
    assert_eq!(reduce_mod_128(-65), (-1, 63));
    for x in [0.0, 1.0, -1.0, 0.5, 10.0, -10.0, 700.0, -700.0, 1e-20] {
        let xd = dd(x, 0.0);
        assert!(reduction_ok(xd));
        let (m, y) = expm1_split(xd);
        let (yh, yl) = parts(y);
        // exp(x) = 2^m * (1 + y)
        let e = (2.0f64).powi(m) * (1.0 + yh + yl);
        assert!((e - x.exp()).abs() <= 4.0 * f64::EPSILON * x.exp(), "exp({}) = {}", x, e);
    }
    // one: m = 1, and 1 + y = e / 2
    let (m, y) = expm1_split(dd(1.0, 0.0));
    assert_eq!(m, 1);
    let (yh, _) = parts(y);
    assert!((yh - (std::f64::consts::E / 2.0 - 1.0)).abs() < 1e-15);
}
