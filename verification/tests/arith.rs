use xprec::arith::{add_dd, addfast_dd, div_dd, mul_dd, sqrt_d};
use xprec::Df64;

fn bits(x: Df64) -> (f64, f64) {
    (f64::from_bits(x.hi()), f64::from_bits(x.lo()))
}

/// 2Sum in hardware binary64: the sum and its exact rounding error.
fn two_sum(a: f64, b: f64) -> (f64, f64) {
    let s = a + b;
    let ap = s - b;
    let bp = s - ap;
    (s, (a - ap) + (b - bp))
}

fn same(x: (f64, f64), y: (f64, f64)) -> bool {
    x.0.to_bits() == y.0.to_bits() && x.1.to_bits() == y.1.to_bits()
}

/// The sum is exact: the result is the hardware's error-free sum.
fn check_sum(f: fn(u64, u64) -> Df64, x: f64, y: f64) {
    let r = bits(f(x.to_bits(), y.to_bits()));
    let expect = two_sum(x, y);
    assert!(r.0 == expect.0 && r.1 == expect.1, "{:e} + {:e}: {:?} vs {:?}", x, y, r, expect);
}

/// The product is exact: the rounded product and its error.
fn check_prod(x: f64, y: f64) {
    let r = bits(mul_dd(x.to_bits(), y.to_bits()));
    let p = x * y;
    let expect = (p, x.mul_add(y, -p));
    assert!(same(r, expect), "{:e} * {:e}: {:?} vs {:?}", x, y, r, expect);
}

/// The quotient: `th` is the rounded quotient, and `tl` the remainder
/// `x - th * y` divided by `y`, which is within `ulps` of the exact
/// correction relative to the quotient.
fn check_ratio(x: f64, y: f64, ulps: f64) {
    let r = bits(div_dd(x.to_bits(), y.to_bits()));
    let th = x / y;
    let rem = (-y).mul_add(th, x);
    let expect = (th, rem / y);
    assert!(same(r, expect), "{:e} / {:e}: {:?} vs {:?}", x, y, r, expect);
    // rem is exact, so th + rem / y is the quotient; tl rounds rem / y.
    let err = (r.1 - rem / y).abs();
    assert!(err <= ulps * f64::EPSILON * f64::EPSILON * th.abs(), "{:e} / {:e}", x, y);
}

#[test]
fn test_arith_dd_fast() {
    let mut x = 8.0;
    while x > 4.0 {
        let mut y = x;
        while y > 1e-36 {
            // addition
            check_sum(addfast_dd, x, y);

            // subtraction
            check_sum(addfast_dd, -x, y);
            check_sum(addfast_dd, x, -y);

            y *= 0.9375;
        }
        x *= 0.9933;
    }
}

#[test]
fn test_arith_dd() {
    let mut x = 10.0;
    while x > 5.0 {
        let mut y = x;
        while y > 1e-35 {
            // addition
            check_sum(add_dd, x, y);
            check_sum(add_dd, y, x);

            // subtraction
            check_sum(add_dd, x, -y);
            check_sum(add_dd, y, -x);

            // multiplication
            check_prod(x, y);
            check_prod(x, -y);

            // division
            check_ratio(x, y, 1.0);
            check_ratio(-x, y, 1.0);
            check_ratio(y, x, 1.0);
            check_ratio(-y, x, 1.0);

            y *= 0.9383;
        }
        x *= 0.9933;
    }
}

/// The square root: `y0` is the rounded root, and the correction is half
/// the exact residual `a - y0 * y0` over `y0`, within `ulps` relative to
/// the root.
fn check_root(a: f64, ulps: f64) {
    let r = bits(sqrt_d(a.to_bits()));
    let y0 = a.sqrt();
    let rem = (-y0).mul_add(y0, a);
    let expect = (y0, 0.5 * (rem / y0));
    assert!(same(r, expect), "sqrt {:e}: {:?} vs {:?}", a, r, expect);
    // the next term of the expansion is -rem^2 / (8 y0^3)
    let err = (r.1 - 0.5 * rem / y0).abs();
    assert!(err <= ulps * f64::EPSILON * f64::EPSILON * y0, "sqrt {:e}", a);
}

#[test]
fn test_sqrt_d() {
    let mut x = 1.0;
    while x > 1e-290 {
        check_root(x, 2.0);
        x *= 0.992;
    }

    x = 1.0;
    while x < 1e300 {
        check_root(x, 2.0);
        x /= 0.992;
    }
}

/// `x` as a significand and a binary exponent, `x == m * 2^e`.
fn decompose(x: f64) -> (i128, i32) {
    if x == 0.0 {
        return (0, -1074);
    }
    let bits = x.to_bits();
    let exp = ((bits >> 52) & 0x7ff) as i32;
    let frac = (bits & 0xf_ffff_ffff_ffff) as i128;
    let (m, e) = if exp == 0 { (frac, -1074) } else { (frac | (1 << 52), exp - 1075) };
    (if x < 0.0 { -m } else { m }, e)
}

/// The exact sum of binary64 numbers as a significand over the smallest
/// exponent, where the exponents lie within 70 of each other.
fn exact_sum(xs: &[f64]) -> (i128, i32) {
    let parts: Vec<(i128, i32)> =
        xs.iter().filter(|&&x| x != 0.0).map(|&x| decompose(x)).collect();
    if parts.is_empty() {
        return (0, 0);
    }
    let emin = parts.iter().map(|p| p.1).min().unwrap();
    let mut total: i128 = 0;
    for (m, e) in parts {
        assert!(e - emin <= 70);
        total += m << (e - emin);
    }
    (total, emin)
}

fn same_value(x: (i128, i32), y: (i128, i32)) -> bool {
    let e = x.1.min(y.1);
    (x.0 << (x.1 - e)) == (y.0 << (y.1 - e))
}

#[test]
fn test_error_free_transformations_are_exact() {
    let mut seed: u64 = 7;
    let mut next = || {
        seed = seed.wrapping_mul(6364136223846793005).wrapping_add(1442695040888963407);
        seed
    };
    for _ in 0..100000 {
        let r = next();
        let x = f64::from_bits((r >> 1) & 0x3fff_ffff_ffff_ffff | 0x3000_0000_0000_0000)
            * if r & 1 == 0 { 1.0 } else { -1.0 };
        let r2 = next();
        let shift = (r2 % 50) as i32;
        let y = x * f64::powi(2.0, -shift) * (1.0 + (r2 >> 11) as f64 / (1u64 << 53) as f64)
            * if r2 & 2 == 0 { 1.0 } else { -1.0 };
        // 2Sum and Fast2Sum: s + t == x + y
        let (s, t) = bits(add_dd(x.to_bits(), y.to_bits()));
        assert!(same_value(exact_sum(&[s, t]), exact_sum(&[x, y])), "2Sum {:e} {:e}", x, y);
        let (big, small) = if x.abs() >= y.abs() { (x, y) } else { (y, x) };
        let (s, t) = bits(addfast_dd(big.to_bits(), small.to_bits()));
        assert!(same_value(exact_sum(&[s, t]), exact_sum(&[big, small])), "Fast2Sum");
        // 2Prod: p + e == x * y
        let (p, e) = bits(mul_dd(x.to_bits(), y.to_bits()));
        let (mx, ex) = decompose(x);
        let (my, ey) = decompose(y);
        assert!(same_value(exact_sum(&[p, e]), (mx * my, ex + ey)), "2Prod {:e} {:e}", x, y);
    }
}

#[test]
fn test_two_sum_edges() {
    // The intermediate a' = s - b overflows here, and 2Sum fails: the sum
    // rounds to MAX - 2^971, and s - b = MAX + 2^970 rounds to infinity.
    let a = f64::MAX;
    let b = -3.0 * f64::powi(2.0, 970);
    let (s, t) = bits(add_dd(a.to_bits(), b.to_bits()));
    assert_eq!(s, a + b);
    assert!(s.is_finite());
    assert!((s - b).is_infinite());
    assert!(t.is_nan());
    // 2Prod is not exact where the product falls below the subnormals.
    let (p, e) = bits(mul_dd(1e-200f64.to_bits(), 1e-200f64.to_bits()));
    assert_eq!(p, 0.0);
    assert_eq!(e, 0.0);
}

#[test]
fn test_traits() {
    // x = 1 * 2, y = 1 / 4, and 1 + x * y - 2, as the operators compute
    // them: `Df64 * f64` is `mul_qd`, `Df64 / f64` is `div_qd`, `f64 + Df64`
    // is `add_dq` and `Df64 - f64` is `sub_qd`.
    let one = xprec::Compensated::new(1.0f64.to_bits(), 0.0f64.to_bits());
    let x = xprec::arith::mul_qd(one, 2.0f64.to_bits());
    let y = xprec::arith::div_qd(one, 4.0f64.to_bits());
    let z = xprec::arith::sub_qd(
        xprec::arith::add_dq(1.0f64.to_bits(), xprec::arith::mul_qq(x, y)),
        2.0f64.to_bits(),
    );
    assert_eq!((f64::from_bits(z.hi()), f64::from_bits(z.lo())), (-0.5, 0.0));
}

#[test]
fn test_error_free_results_are_normalized() {
    // the leading part of each result is the binary64 sum of its parts
    let vals = [1.0, -3.5e-7, 2.0f64.powi(60), 1e-300, 123456.789, -0.1, 7e200];
    for &a in &vals {
        for &b in &vals {
            for r in [add_dd(a.to_bits(), b.to_bits()), mul_dd(a.to_bits(), b.to_bits())] {
                let (h, l) = bits(r);
                // (where no part underflows)
                if h.is_finite() && h.abs() > 1e-280 && l.is_finite() {
                    assert_eq!(h + l, h, "{} {}", a, b);
                }
            }
            if a.abs() >= b.abs() {
                let (h, l) = bits(addfast_dd(a.to_bits(), b.to_bits()));
                if h.is_finite() && h != 0.0 {
                    assert_eq!(h + l, h, "{} {}", a, b);
                }
                // the correction is at most 2^-53 of the sum
                if h.is_finite() {
                    assert!(l.abs() <= h.abs() * 2f64.powi(-53), "{} {}", a, b);
                }
            }
        }
    }
}
