use xprec::arith::{div_qd, div_qq, mul_qd, neg_q, reciprocal_q};
use xprec::checks::{is_finite, is_infinite, is_nan, is_zero};
use xprec::circular::{atan_expands, cos, cos_kernel, sin, sin_kernel, sincos_kernel, tan};
use xprec::exp::{exp, expm1};
use xprec::hyperbolic::{acosh_arg, asinh_arg, atanh_arg, cosh, sinh, tanh};
use xprec::{Compensated, Df64};

fn dd(hi: f64, lo: f64) -> Df64 {
    Compensated::new(hi.to_bits(), lo.to_bits())
}

fn parts(x: Df64) -> (f64, f64) {
    (f64::from_bits(x.hi()), f64::from_bits(x.lo()))
}

fn hi(x: Df64) -> f64 {
    parts(x).0
}

/// `x * f` for a binary64 factor, as `x *= f` does.
fn scale(x: Df64, f: f64) -> Df64 {
    mul_qd(x, f.to_bits())
}

/// `2^-105`: the precision of a double-double number.
const EPSILON: f64 = f64::EPSILON * f64::EPSILON / 2.0;

// ---------------------------------------------------------------------------
// A reference: binary floating point with a 128-bit significand.

/// `(-1)^neg * mant * 2^exp`, with the top bit of `mant` set, or zero.
#[derive(Clone, Copy, Debug)]
struct Big {
    neg: bool,
    mant: u128,
    exp: i32,
}

const ZERO: Big = Big { neg: false, mant: 0, exp: 0 };

/// `pi/2` to 128 bits.
const PI_HALF: Big = Big { neg: false, mant: 0xc90fdaa22168c234c4c6628b80dc1cd1, exp: -127 };

/// `log(2)` to 128 bits.
const LN2: Big = Big { neg: false, mant: 0xb17217f7d1cf79abc9e3b39803f2f6af, exp: -128 };

fn norm(neg: bool, mant: u128, exp: i32) -> Big {
    if mant == 0 {
        return ZERO;
    }
    let z = mant.leading_zeros();
    Big { neg, mant: mant << z, exp: exp - z as i32 }
}

/// The full product of two 128-bit numbers, as `(high, low)`.
fn mul_wide(a: u128, b: u128) -> (u128, u128) {
    let m64: u128 = (1u128 << 64) - 1;
    let (a1, a0) = (a >> 64, a & m64);
    let (b1, b0) = (b >> 64, b & m64);
    let p00 = a0 * b0;
    let p01 = a0 * b1;
    let p10 = a1 * b0;
    let p11 = a1 * b1;
    let mid = (p00 >> 64) + (p01 & m64) + (p10 & m64);
    let lo = (p00 & m64) | ((mid & m64) << 64);
    let hi = p11 + (p01 >> 64) + (p10 >> 64) + (mid >> 64);
    (hi, lo)
}

impl Big {
    fn from_f64(x: f64) -> Big {
        if x == 0.0 {
            return ZERO;
        }
        let bits = x.to_bits();
        let e = ((bits >> 52) & 0x7ff) as i32;
        let f = (bits & 0xf_ffff_ffff_ffff) as u128;
        let (m, e) = if e == 0 { (f, -1074) } else { (f | (1 << 52), e - 1075) };
        norm(x < 0.0, m, e)
    }

    fn from_dd(x: Df64) -> Big {
        let (h, l) = parts(x);
        Big::from_f64(h).add(Big::from_f64(l))
    }

    fn from_int(k: i64) -> Big {
        norm(k < 0, k.unsigned_abs() as u128, 0)
    }

    fn is_zero(self) -> bool {
        self.mant == 0
    }

    fn neg(self) -> Big {
        Big { neg: !self.neg, ..self }
    }

    fn abs(self) -> Big {
        Big { neg: false, ..self }
    }

    /// The position of the top bit: `|self|` lies in `[2^t, 2^(t+1))`.
    fn top(self) -> i32 {
        self.exp + 127
    }

    fn add(self, other: Big) -> Big {
        if self.is_zero() {
            return other;
        }
        if other.is_zero() {
            return self;
        }
        let (a, b) = if (self.exp, self.mant) >= (other.exp, other.mant) {
            (self, other)
        } else {
            (other, self)
        };
        let d = a.exp - b.exp;
        let am = a.mant >> 1;
        let bm = if d >= 127 { 0 } else { (b.mant >> 1) >> d };
        let m = if a.neg == b.neg { am + bm } else { am - bm };
        norm(a.neg, m, a.exp + 1)
    }

    fn sub(self, other: Big) -> Big {
        self.add(other.neg())
    }

    fn mul(self, other: Big) -> Big {
        if self.is_zero() || other.is_zero() {
            return ZERO;
        }
        let (h, l) = mul_wide(self.mant, other.mant);
        let (m, e) = if h >> 127 == 1 { (h, 128) } else { ((h << 1) | (l >> 127), 127) };
        norm(self.neg != other.neg, m, self.exp + other.exp + e)
    }

    fn div_int(self, d: u64) -> Big {
        let d = d as u128;
        let q1 = self.mant / d;
        let r = self.mant % d;
        let q0 = (r << 64) / d;
        let z = q1.leading_zeros();
        let m = if z >= 64 { (q1 << 64) | q0 } else { (q1 << z) | (q0 >> (64 - z)) };
        let e = if z >= 64 { self.exp - 64 } else { self.exp - z as i32 };
        norm(self.neg, m, e)
    }

    fn div(self, other: Big) -> Big {
        if self.is_zero() {
            return ZERO;
        }
        let b = other.mant;
        let mut r = self.mant;
        let mut carry = false;
        let mut q: u128 = 0;
        for _ in 0..128 {
            q <<= 1;
            if carry || r >= b {
                r = r.wrapping_sub(b);
                q |= 1;
            }
            carry = r >> 127 == 1;
            r <<= 1;
        }
        norm(self.neg != other.neg, q, self.exp - other.exp - 127)
    }

    fn to_f64(self) -> f64 {
        if self.is_zero() {
            return 0.0;
        }
        let m = (self.mant >> 64) as f64;
        let v = m * 2f64.powi(self.exp + 64);
        if self.neg { -v } else { v }
    }
}

/// `sum_k x^k / k!` for `k >= k0`, whose first term is `term`.
fn taylor(x: Big, mut term: Big, k0: u64, step: u64) -> Big {
    let mut sum = term;
    let mut k = k0;
    loop {
        let mut t = term.mul(x);
        for j in 0..step {
            t = t.div_int(k + 1 + j);
        }
        k += step;
        term = t;
        if term.is_zero() || term.top() < sum.top() - 140 {
            return sum;
        }
        sum = sum.add(term);
    }
}

fn big_exp(x: Big) -> Big {
    let k = (x.to_f64() / std::f64::consts::LN_2).round() as i64;
    let r = x.sub(Big::from_int(k).mul(LN2));
    let e = taylor(r, norm(false, 1, 0), 0, 1);
    Big { exp: e.exp + k as i32, ..e }
}

fn big_expm1(x: Big) -> Big {
    if x.is_zero() {
        return ZERO;
    }
    if x.to_f64().abs() < 0.5 {
        taylor(x, x, 1, 1)
    } else {
        big_exp(x).sub(norm(false, 1, 0))
    }
}

/// `(q, z)` with `x = q * pi/2 + z` and `|z| <= pi/4` roughly.
fn big_reduce(x: Big) -> (i64, Big) {
    let q = (x.to_f64() / std::f64::consts::FRAC_PI_2).round() as i64;
    (q, x.sub(Big::from_int(q).mul(PI_HALF)))
}

fn sin_series(z: Big) -> Big {
    if z.is_zero() {
        return ZERO;
    }
    taylor(z.mul(z).neg(), z, 1, 2)
}

fn cos_series(z: Big) -> Big {
    taylor(z.mul(z).neg(), norm(false, 1, 0), 0, 2)
}

fn big_sin(x: Big) -> Big {
    let (q, z) = big_reduce(x);
    match q.rem_euclid(4) {
        0 => sin_series(z),
        1 => cos_series(z),
        2 => sin_series(z).neg(),
        _ => cos_series(z).neg(),
    }
}

fn big_cos(x: Big) -> Big {
    let (q, z) = big_reduce(x);
    match q.rem_euclid(4) {
        0 => cos_series(z),
        1 => sin_series(z).neg(),
        2 => cos_series(z).neg(),
        _ => sin_series(z),
    }
}

fn big_tan(x: Big) -> Big {
    big_sin(x).div(big_cos(x))
}

fn big_cosh(x: Big) -> Big {
    let e = big_exp(x.abs());
    e.add(norm(false, 1, 0).div(e)).div_int(2)
}

fn big_sinh(x: Big) -> Big {
    if x.is_zero() {
        return ZERO;
    }
    if x.to_f64().abs() < 0.5 {
        return taylor(x.mul(x), x, 1, 2);
    }
    let e = big_exp(x.abs());
    let s = e.sub(norm(false, 1, 0).div(e)).div_int(2);
    if x.neg { s.neg() } else { s }
}

fn big_tanh(x: Big) -> Big {
    if x.is_zero() {
        return ZERO;
    }
    // tanh(|x|) = expm1(2|x|) / (expm1(2|x|) + 2)
    let a = x.abs();
    let m = big_expm1(a.add(a));
    let t = m.div(m.add(norm(false, 1, 1)));
    if x.neg { t.neg() } else { t }
}

fn one() -> Big {
    norm(false, 1, 0)
}

/// `(m, e)` with `x = m * 2^e` and `m` in `[1, 2)`, for `x > 0`.
fn split(x: Big) -> (Big, i32) {
    (Big { exp: -127, ..x }, x.exp + 127)
}

fn big_sqrt(a: Big) -> Big {
    if a.is_zero() {
        return ZERO;
    }
    let (m, e) = split(a);
    let (m, e) = if e % 2 != 0 { (m.add(m), e - 1) } else { (m, e) };
    let mut s = Big::from_f64(m.to_f64().sqrt());
    s = Big { exp: s.exp + e / 2, ..s };
    for _ in 0..4 {
        s = s.add(a.div(s)).div_int(2);
    }
    s
}

fn big_ln(x: Big) -> Big {
    let (m, e) = split(x);
    // Newton steps on exp(y) = m: y += 2 (m - exp(y)) / (m + exp(y))
    let mut y = Big::from_f64(m.to_f64().ln());
    for _ in 0..3 {
        let ey = big_exp(y);
        y = y.add(m.sub(ey).div(m.add(ey)).add(m.sub(ey).div(m.add(ey))));
    }
    Big::from_int(e as i64).mul(LN2).add(y)
}

/// `log(1 + x)`; for `|x| < 1/2` as `2 atanh(x / (2 + x))` by its series.
fn big_ln1p(x: Big) -> Big {
    if x.is_zero() {
        return ZERO;
    }
    if x.to_f64().abs() >= 0.5 {
        return big_ln(one().add(x));
    }
    let u = x.div(norm(false, 1, 1).add(x));
    let u2 = u.mul(u);
    let mut pw = u;
    let mut sum = u;
    let mut k = 1u64;
    loop {
        pw = pw.mul(u2);
        k += 2;
        let t = pw.div_int(k);
        if t.is_zero() || t.top() < sum.top() - 140 {
            break;
        }
        sum = sum.add(t);
    }
    sum.add(sum)
}

fn big_atan(x: Big) -> Big {
    if x.is_zero() {
        return ZERO;
    }
    if x.to_f64().abs() > 1.0 {
        let r = PI_HALF.sub(big_atan(one().div(x.abs())));
        return if x.neg { r.neg() } else { r };
    }
    // Newton steps on tan(y) = x: y += (x cos(y) - sin(y)) cos(y)
    let mut y = Big::from_f64(x.to_f64().atan());
    for _ in 0..3 {
        let c = big_cos(y);
        y = y.add(x.mul(c).sub(big_sin(y)).mul(c));
    }
    y
}

fn big_pi() -> Big {
    PI_HALF.add(PI_HALF)
}

fn big_atan2(y: Big, x: Big) -> Big {
    if x.is_zero() {
        if y.is_zero() {
            return ZERO;
        }
        return if y.neg { PI_HALF.neg() } else { PI_HALF };
    }
    let a = big_atan(y.div(x));
    if !x.neg {
        a
    } else if y.neg {
        a.sub(big_pi())
    } else {
        a.add(big_pi())
    }
}

/// `sqrt(1 - x^2)` as `sqrt((1 - x) (1 + x))`.
fn big_cos_of(x: Big) -> Big {
    big_sqrt(one().sub(x).mul(one().add(x)))
}

fn big_asin(x: Big) -> Big {
    big_atan2(x, big_cos_of(x))
}

fn big_acos(x: Big) -> Big {
    big_atan2(big_cos_of(x), x)
}

fn big_asinh(x: Big) -> Big {
    if x.is_zero() {
        return ZERO;
    }
    // asinh(|x|) = log1p(|x| + x^2 / (1 + sqrt(1 + x^2)))
    let a = x.abs();
    let x2 = a.mul(a);
    let u = a.add(x2.div(one().add(big_sqrt(one().add(x2)))));
    let r = big_ln1p(u);
    if x.neg { r.neg() } else { r }
}

fn big_acosh(x: Big) -> Big {
    big_ln(x.add(big_sqrt(x.sub(one()).mul(x.add(one())))))
}

fn big_atanh(x: Big) -> Big {
    // atanh(x) = log1p(2x / (1 - x)) / 2
    big_ln1p(x.add(x).div(one().sub(x))).div_int(2)
}

/// `|a - b| <= ulps * EPSILON * |a|`.
fn close(a: Big, b: Big, ulps: f64) -> bool {
    let diff = a.sub(b).abs();
    if diff.is_zero() {
        true
    } else if a.is_zero() {
        false
    } else {
        let ratio = ((diff.mant >> 64) as f64) / ((a.mant >> 64) as f64)
            * 2f64.powi(diff.exp - a.exp);
        ratio <= EPSILON * ulps
    }
}

/// Checks `f(x, y)` against the reference `fref(x, y)`.
fn check_binary(f: fn(Df64, Df64) -> Df64, fref: fn(Big, Big) -> Big, x: Df64, y: Df64, ulps: f64) {
    let z = f(x, y);
    let zref = fref(Big::from_dd(x), Big::from_dd(y));
    assert!(
        close(Big::from_dd(z), zref, ulps),
        "f({:e}, {:e}) = {:e}, should be {:e}",
        hi(x),
        hi(y),
        hi(z),
        zref.to_f64()
    );
}

/// Checks `f(x)` against the reference `fref(x)`: the two differ by at most
/// `ulps` times `EPSILON` relative to the result.
fn check_unary(f: fn(Df64) -> Df64, fref: fn(Big) -> Big, x: Df64, ulps: f64) {
    let z = f(x);
    let zz = Big::from_dd(z);
    let zref = fref(Big::from_dd(x));
    let diff = zz.sub(zref).abs();
    let ok = if diff.is_zero() {
        true
    } else if zz.is_zero() {
        false
    } else {
        let ratio = ((diff.mant >> 64) as f64) / ((zz.mant >> 64) as f64)
            * 2f64.powi(diff.exp - zz.exp);
        ratio <= EPSILON * ulps
    };
    assert!(
        ok,
        "f({:e}, {:e}) = ({:e}, {:e}), should be {:e}",
        parts(x).0,
        parts(x).1,
        parts(z).0,
        parts(z).1,
        zref.to_f64()
    );
}

// ---------------------------------------------------------------------------
// The exponential

#[test]
fn test_exp() {
    // special values
    assert!(is_infinite(exp(dd(1000.0, 0.0))));
    assert!(is_infinite(exp(dd(f64::INFINITY, 0.0))));
    assert!(is_zero(exp(dd(-1000.0, 0.0))));
    assert!(is_zero(exp(neg_q(dd(f64::INFINITY, 0.0)))));
    assert!(is_nan(exp(dd(f64::NAN, 0.0))));

    // simple vals
    check_unary(exp, big_exp, dd(0.0, 0.0), 1.0);

    // small values
    let mut x = dd(0.25, 0.0);
    while hi(x) > 1e-290 {
        check_unary(exp, big_exp, x, 1.0);
        check_unary(exp, big_exp, neg_q(x), 1.0);
        x = scale(x, 0.947);
    }

    check_unary(exp, big_exp, dd(1.0, 0.0), 1.0);

    // large values
    x = dd(0.25, 0.0);
    while hi(x) < 708.0 {
        check_unary(exp, big_exp, x, 1.0);
        if hi(x) < 670.0 {
            check_unary(exp, big_exp, neg_q(x), 1.0);
        }
        x = scale(x, 1.0041);
    }
}

#[test]
fn test_expm1() {
    // special values
    assert!(is_infinite(expm1(dd(1000.0, 0.0))));
    assert!(is_infinite(expm1(dd(f64::INFINITY, 0.0))));
    assert_eq!(parts(expm1(dd(-1000.0, 0.0))), (-1.0, 0.0));
    assert_eq!(parts(expm1(neg_q(dd(f64::INFINITY, 0.0)))), (-1.0, 0.0));
    assert!(is_nan(expm1(dd(f64::NAN, 0.0))));

    // simple vals
    check_unary(expm1, big_expm1, dd(0.0, 0.0), 1.0);
    check_unary(expm1, big_expm1, dd(1.0, 0.0), 1.0);

    // small values
    let mut x = dd(0.5, 0.0);
    while hi(x) > 1e-290 {
        check_unary(expm1, big_expm1, x, 1.5);
        check_unary(expm1, big_expm1, neg_q(x), 1.5);
        x = scale(x, 0.947);
    }

    // large values
    x = dd(0.5, 0.0);
    while hi(x) < 708.0 {
        check_unary(expm1, big_expm1, x, 1.0);
        if hi(x) < 670.0 {
            check_unary(expm1, big_expm1, neg_q(x), 1.0);
        }
        x = scale(x, 1.0041);
    }
}

// ---------------------------------------------------------------------------
// The circular functions

fn sincos_kernel_sin(x: Df64) -> Df64 {
    sincos_kernel(x).0
}

fn sincos_kernel_cos(x: Df64) -> Df64 {
    sincos_kernel(x).1
}

#[test]
fn test_kernels() {
    // small values, start from PI/4
    let mut x = dd(std::f64::consts::PI / 4.0, 0.0);
    while hi(x) > 1e-290 {
        check_unary(sin_kernel, big_sin, x, 1.1);
        check_unary(sin_kernel, big_sin, neg_q(x), 1.1);
        check_unary(cos_kernel, big_cos, x, 1.1);
        check_unary(cos_kernel, big_cos, neg_q(x), 1.1);

        check_unary(sincos_kernel_sin, big_sin, x, 1.1);
        check_unary(sincos_kernel_sin, big_sin, neg_q(x), 1.1);
        check_unary(sincos_kernel_cos, big_cos, x, 1.1);
        check_unary(sincos_kernel_cos, big_cos, neg_q(x), 1.1);
        x = scale(x, 0.947);
    }
}

#[test]
fn test_circ() {
    // small values, start from PI/4
    let mut x = dd(std::f64::consts::PI / 4.0, 0.0);
    while hi(x) > 1e-290 {
        check_unary(sin, big_sin, x, 1.1);
        check_unary(sin, big_sin, neg_q(x), 1.1);
        check_unary(cos, big_cos, x, 1.1);
        check_unary(cos, big_cos, neg_q(x), 1.1);
        check_unary(tan, big_tan, x, 2.0);
        check_unary(tan, big_tan, neg_q(x), 2.0);
        x = scale(x, 0.947);
    }

    // larger values
    x = dd(std::f64::consts::PI / 4.0, 0.0);
    while hi(x) < 100.0 {
        let magn = hi(x).abs().max(1.0);
        check_unary(sin, big_sin, x, 1.5 * magn);
        check_unary(sin, big_sin, neg_q(x), 1.5 * magn);
        check_unary(cos, big_cos, x, 1.5 * magn);
        check_unary(cos, big_cos, neg_q(x), 1.5 * magn);
        check_unary(tan, big_tan, x, 2.5 * magn);
        check_unary(tan, big_tan, neg_q(x), 2.5 * magn);
        x = xprec::arith::div_qd(x, 0.947f64.to_bits());
    }
}

#[test]
fn test_circular_reduction() {
    // NaN, the infinities and huge arguments are refused
    assert!(xprec::circular::reduction_ok(dd(100.0, 0.0)));
    assert!(xprec::circular::reduction_ok(dd(-1e6, 0.0)));
    assert!(!xprec::circular::reduction_ok(dd(f64::NAN, 0.0)));
    assert!(!xprec::circular::reduction_ok(dd(f64::INFINITY, 0.0)));
    assert!(!xprec::circular::reduction_ok(dd(1e300, 0.0)));
    // the quadrant picks the function: sin(pi/2) = 1, cos(pi) = -1
    let (s, z) = xprec::circular::reduce_mod_pi2(dd(std::f64::consts::FRAC_PI_2, 6.123233995736766e-17));
    assert_eq!(s, 1);
    assert!(hi(z).abs() < 1e-32);
    assert_eq!(hi(sin(dd(std::f64::consts::FRAC_PI_2, 6.123233995736766e-17))), 1.0);
    assert_eq!(hi(cos(dd(std::f64::consts::PI, 1.2246467991473532e-16))), -1.0);
    // the quadrant of a negative argument: -pi is quadrant 2
    let (s, _) = xprec::circular::reduce_mod_pi2(dd(-std::f64::consts::PI, 0.0));
    assert_eq!(s, 2);
}

// ---------------------------------------------------------------------------
// The hyperbolic functions

/// `710.4758600739439`, beyond which `cosh` and `sinh` overflow.
const COSH_MAX: f64 = 710.4758600739439;

#[test]
fn test_cosh() {
    // special values
    assert!(is_infinite(cosh(dd(1000.0, 0.0))));
    assert!(is_infinite(cosh(dd(f64::INFINITY, 0.0))));
    assert!(is_infinite(cosh(dd(f64::NEG_INFINITY, 0.0))));
    assert!(is_nan(cosh(dd(f64::NAN, 0.0))));

    // simple vals
    check_unary(cosh, big_cosh, dd(0.0, 0.0), 1.0);

    // small values
    let mut x = dd(1.0, 0.0);
    while hi(x) > 1e-290 {
        check_unary(cosh, big_cosh, x, 1.0);
        check_unary(cosh, big_cosh, neg_q(x), 1.0);
        x = scale(x, 0.947);
    }

    // large values
    x = dd(1.0, 0.0);
    while hi(x) < COSH_MAX {
        check_unary(cosh, big_cosh, x, 1.0);
        check_unary(cosh, big_cosh, neg_q(x), 1.0);
        x = scale(x, 1.0041);
    }

    assert!(is_finite(cosh(dd(COSH_MAX, 0.0))));
}

#[test]
fn test_sinh() {
    // special values
    assert!(is_infinite(sinh(dd(1000.0, 0.0))));
    assert!(is_infinite(sinh(dd(f64::INFINITY, 0.0))));
    assert!(is_infinite(sinh(dd(f64::NEG_INFINITY, 0.0))));
    assert!(hi(sinh(dd(f64::NEG_INFINITY, 0.0))) < 0.0);
    assert!(is_nan(sinh(dd(f64::NAN, 0.0))));

    // simple vals
    check_unary(sinh, big_sinh, dd(0.0, 0.0), 1.0);

    // small values
    let mut x = dd(1.0, 0.0);
    while hi(x) > 1e-290 {
        check_unary(sinh, big_sinh, x, 2.0);
        check_unary(sinh, big_sinh, neg_q(x), 2.0);
        x = scale(x, 0.947);
    }

    // large values
    x = dd(1.0, 0.0);
    while hi(x) < COSH_MAX {
        check_unary(sinh, big_sinh, x, 1.0);
        check_unary(sinh, big_sinh, neg_q(x), 1.0);
        x = scale(x, 1.0041);
    }

    assert!(is_finite(sinh(dd(COSH_MAX, 0.0))));
}

#[test]
fn test_tanh() {
    // special values
    assert_eq!(parts(tanh(dd(1000.0, 0.0))), (1.0, 0.0));
    assert_eq!(parts(tanh(dd(-1000.0, 0.0))), (-1.0, 0.0));
    assert_eq!(parts(tanh(dd(f64::INFINITY, 0.0))), (1.0, 0.0));
    assert_eq!(parts(tanh(neg_q(dd(f64::INFINITY, 0.0)))), (-1.0, 0.0));
    assert!(is_nan(tanh(dd(f64::NAN, 0.0))));

    // simple vals
    check_unary(tanh, big_tanh, dd(0.0, 0.0), 1.0);

    // small values
    let mut x = dd(1.0, 0.0);
    while hi(x) > 1e-290 {
        check_unary(tanh, big_tanh, x, 2.0);
        check_unary(tanh, big_tanh, neg_q(x), 2.0);
        x = scale(x, 0.947);
    }

    // large values
    x = dd(1.0, 0.0);
    while hi(x) < 10.0 * COSH_MAX {
        check_unary(tanh, big_tanh, x, 2.0);
        check_unary(tanh, big_tanh, neg_q(x), 2.0);
        x = scale(x, 1.0041);
    }
}

// ---------------------------------------------------------------------------
// The logarithms and the inverse functions, from the binary64 seeds that
// std computes

fn log(x: Df64) -> Df64 {
    xprec::exp::log(x, hi(x).ln().to_bits())
}

fn log1p(x: Df64) -> Df64 {
    xprec::exp::log1p(x, hi(x).ln_1p().to_bits())
}

fn asin(x: Df64) -> Df64 {
    xprec::circular::asin(x, hi(x).asin().to_bits())
}

fn acos(x: Df64) -> Df64 {
    xprec::circular::acos(x, hi(x).acos().to_bits())
}

fn atan(x: Df64) -> Df64 {
    let inner = if !atan_expands(x) && is_finite(x) { atan(reciprocal_q(x)) } else { dd(0.0, 0.0) };
    xprec::circular::atan(x, hi(x).atan().to_bits(), inner)
}

fn atan2(y: Df64, x: Df64) -> Df64 {
    xprec::circular::atan2(y, x, atan(div_qq(y, x)))
}

fn asinh(x: Df64) -> Df64 {
    xprec::hyperbolic::asinh(x, hi(x).asinh().to_bits(), hi(asinh_arg(x)).ln().to_bits())
}

fn acosh(x: Df64) -> Df64 {
    xprec::hyperbolic::acosh(x, hi(acosh_arg(x)).ln().to_bits())
}

fn atanh(x: Df64) -> Df64 {
    xprec::hyperbolic::atanh(x, hi(atanh_arg(x)).ln_1p().to_bits())
}

#[test]
fn test_log() {
    // special values
    assert!(is_infinite(log(dd(f64::INFINITY, 0.0))));
    assert!(is_infinite(log(dd(0.0, 0.0))));
    assert!(is_nan(log(dd(-0.1, 0.0))));
    assert!(is_nan(log(dd(f64::NEG_INFINITY, 0.0))));
    assert!(is_nan(log(dd(f64::NAN, 0.0))));

    // simple vals
    check_unary(log, big_ln, dd(1.0, 0.0), 1.0);
    check_unary(log, big_ln, dd(3.0, 0.0), 1.0);

    // small values
    let mut x = dd(1.0, 0.0);
    while hi(x) > 1e-290 {
        check_unary(log, big_ln, x, 1.0);
        x = scale(x, 0.947);
    }

    // large values
    x = dd(1.0, 0.0);
    while hi(x) < 1e300 {
        check_unary(log, big_ln, x, 1.0);
        x = scale(x, 1.13);
    }
}

#[test]
fn test_log1p() {
    // special values
    assert!(is_infinite(log1p(dd(f64::INFINITY, 0.0))));
    assert!(is_infinite(log1p(dd(-1.0, 0.0))));
    assert!(is_nan(log1p(dd(-1.1, 0.0))));
    assert!(is_nan(log1p(dd(f64::NEG_INFINITY, 0.0))));
    assert!(is_nan(log1p(dd(f64::NAN, 0.0))));

    // simple vals
    check_unary(log1p, big_ln1p, dd(0.0, 0.0), 0.0);
    check_unary(log1p, big_ln1p, dd(1.0, 0.0), 1.5);

    // small values
    let mut x = dd(0.99, 0.0);
    while hi(x) > 1e-290 {
        check_unary(log1p, big_ln1p, x, 1.5);
        check_unary(log1p, big_ln1p, neg_q(x), 1.5);
        x = scale(x, 0.947);
    }

    // large values
    x = dd(1.0, 0.0);
    while hi(x) < 1e300 {
        check_unary(log1p, big_ln1p, x, 1.0);
        x = scale(x, 1.13);
    }
}

#[test]
fn test_acirc() {
    let ulps = 1e-31 / EPSILON;
    let zero = dd(0.0, 0.0);

    // asin
    check_unary(asin, big_asin, zero, ulps);
    check_unary(asin, big_asin, dd(0.5, 0.0), ulps);
    check_unary(asin, big_asin, dd(-0.5, 0.0), ulps);
    check_unary(asin, big_asin, dd(1.0, 0.0), ulps);
    check_unary(asin, big_asin, dd(-1.0, 0.0), ulps);
    // acos
    check_unary(acos, big_acos, zero, ulps);
    check_unary(acos, big_acos, dd(0.5, 0.0), ulps);
    check_unary(acos, big_acos, dd(-0.5, 0.0), ulps);
    check_unary(acos, big_acos, dd(1.0, 0.0), ulps);
    check_unary(acos, big_acos, dd(-1.0, 0.0), ulps);
    // atan
    check_unary(atan, big_atan, zero, ulps);
    check_unary(atan, big_atan, dd(0.5, 0.0), ulps);
    check_unary(atan, big_atan, dd(-0.5, 0.0), ulps);
    // atan2
    check_binary(atan2, big_atan2, zero, zero, ulps);
    check_binary(atan2, big_atan2, dd(0.3, 0.0), zero, ulps);
    check_binary(atan2, big_atan2, zero, dd(1.0, 0.0), ulps);
    check_binary(atan2, big_atan2, dd(-0.5, 0.0), zero, ulps);
    check_binary(atan2, big_atan2, zero, dd(-0.1, 0.0), ulps);

    check_binary(atan2, big_atan2, dd(0.5, 0.0), dd(0.5, 0.0), ulps);
    check_binary(atan2, big_atan2, dd(0.5, 0.0), dd(-0.5, 0.0), ulps);
    check_binary(atan2, big_atan2, dd(-0.5, 0.0), dd(0.5, 0.0), ulps);
    check_binary(atan2, big_atan2, dd(-0.5, 0.0), dd(-0.5, 0.0), ulps);

    // small values must be very accurate
    let mut x = dd(1.0, 0.0);
    while hi(x) > 1e-300 {
        // asin
        check_unary(asin, big_asin, x, ulps);
        check_unary(asin, big_asin, neg_q(x), ulps);
        // acos
        check_unary(acos, big_acos, x, ulps);
        check_unary(acos, big_acos, neg_q(x), ulps);
        // atan
        check_unary(atan, big_atan, x, ulps);
        check_unary(atan, big_atan, neg_q(x), ulps);
        x = scale(x, 0.84);
    }

    let mut x = dd(1.0, 0.0);
    while hi(x) < 1e290 {
        check_unary(atan, big_atan, x, ulps);
        check_unary(atan, big_atan, neg_q(x), ulps);
        x = div_qd(x, 0.84f64.to_bits());
    }
}

#[test]
fn test_arc() {
    // small values
    let mut x = dd(1.0, 0.0);
    while hi(x) > 1e-290 {
        check_unary(asinh, big_asinh, x, 2.0);
        check_unary(asinh, big_asinh, neg_q(x), 2.0);
        if hi(x) < 1.0 || (hi(x) == 1.0 && parts(x).1 < 0.0) {
            check_unary(atanh, big_atanh, x, 2.5);
            check_unary(atanh, big_atanh, neg_q(x), 2.5);
        }
        x = scale(x, 0.91);
    }

    // large values
    x = dd(1.0, 0.0);
    while hi(x) < f64::MAX / 4.0 {
        check_unary(asinh, big_asinh, x, 2.0);
        check_unary(asinh, big_asinh, neg_q(x), 2.0);
        check_unary(acosh, big_acosh, x, 2.0);
        x = scale(x, 1.13);
    }
}

#[test]
fn test_inverse_special_values() {
    // asin and acos at the ends of their domain, and beyond
    assert_eq!(parts(asin(dd(1.0, 0.0))), (std::f64::consts::FRAC_PI_2, 6.123233995736766e-17));
    assert_eq!(parts(asin(dd(-1.0, 0.0))), (-std::f64::consts::FRAC_PI_2, -6.123233995736766e-17));
    assert_eq!(parts(acos(dd(1.0, 0.0))), (0.0, 0.0));
    assert_eq!(parts(acos(dd(-1.0, 0.0))), (std::f64::consts::PI, 1.2246467991473532e-16));
    assert!(is_nan(asin(dd(1.5, 0.0))));
    assert!(is_nan(acos(dd(-1.5, 0.0))));
    // atan reflects beyond one, and keeps NaN
    assert_eq!(parts(atan(dd(f64::INFINITY, 0.0))), (std::f64::consts::FRAC_PI_2, 6.123233995736766e-17));
    assert!(is_nan(atan(dd(f64::NAN, 0.0))));
    // atan2 on the axes
    assert_eq!(parts(atan2(dd(0.0, 0.0), dd(-2.0, 0.0))), (std::f64::consts::PI, 1.2246467991473532e-16));
    assert_eq!(parts(atan2(dd(-3.0, 0.0), dd(0.0, 0.0))), (-std::f64::consts::FRAC_PI_2, -6.123233995736766e-17));
    assert!(is_nan(atan2(dd(f64::NAN, 0.0), dd(1.0, 0.0))));
    // the inverse hyperbolic functions keep the infinities and NaN
    assert_eq!(parts(asinh(dd(f64::NEG_INFINITY, 0.0))), (f64::NEG_INFINITY, 0.0));
    assert_eq!(parts(acosh(dd(f64::INFINITY, 0.0))), (f64::INFINITY, 0.0));
    assert_eq!(parts(atanh(dd(-1.0, 0.0))), (f64::NEG_INFINITY, 0.0));
    assert!(is_nan(atanh(dd(f64::NAN, 0.0))));
    // a seed that is not finite is the result
    assert_eq!(parts(xprec::exp::log(dd(0.0, 0.0), f64::NEG_INFINITY.to_bits())), (f64::NEG_INFINITY, 0.0));
}

#[test]
fn test_hyperbolic_parity() {
    // cosh is even, sinh and tanh are odd, part by part
    for &v in &[1e-300, 1e-8, 0.3, 1.0, 2.5, 20.0, 36.0, 40.0, 700.0, 710.0, 1e5] {
        let x = dd(v, v * 1e-17);
        let m = neg_q(x);
        assert_eq!(parts(cosh(m)), parts(cosh(x)));
        let (sh, sl) = parts(sinh(x));
        let (mh, ml) = parts(sinh(m));
        assert_eq!((mh.to_bits(), ml.to_bits()), ((-sh).to_bits(), (-sl).to_bits()));
        let (th, tl) = parts(tanh(x));
        let (nh, nl) = parts(tanh(m));
        assert_eq!((nh.to_bits(), nl.to_bits()), ((-th).to_bits(), (-tl).to_bits()));
    }
}

#[test]
fn test_even_kernels() {
    // the square and the cosine series do not see the sign of the argument
    for &(h, l) in &[(0.5f64, 1e-18f64), (0.785, -3e-17), (1e-5, 2e-22), (0.1, 0.0), (0.0, 0.0)] {
        let x = Compensated::new(h.to_bits(), l.to_bits());
        let nx = neg_q(x);
        let a = xprec::arith::square_q(x);
        let b = xprec::arith::square_q(nx);
        assert_eq!((a.hi(), a.lo()), (b.hi(), b.lo()), "square_q {} {}", h, l);
        let a = cos_kernel(x);
        let b = cos_kernel(nx);
        assert_eq!((a.hi(), a.lo()), (b.hi(), b.lo()), "cos_kernel {} {}", h, l);
    }
}
