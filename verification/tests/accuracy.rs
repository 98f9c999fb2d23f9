use xprec::arith::{add_dd, add_qd, add_qq, addfast_qd, addfast_qq, div_dd, div_qd, mul_qd, mul_qq, reciprocal_d, sqrt_q};
use xprec::Df64;

fn parts(x: Df64) -> (f64, f64) {
    (f64::from_bits(x.hi()), f64::from_bits(x.lo()))
}

// ---------------------------------------------------------------------------
// A reference: binary floating point with a 128-bit significand.

/// `(-1)^neg * mant * 2^exp`, with the top bit of `mant` set, or zero.
#[derive(Clone, Copy, Debug)]
struct Big {
    neg: bool,
    mant: u128,
    exp: i32,
}

const ZERO: Big = Big { neg: false, mant: 0, exp: 0 };

fn norm(neg: bool, mant: u128, exp: i32) -> Big {
    if mant == 0 {
        return ZERO;
    }
    let z = mant.leading_zeros();
    Big { neg, mant: mant << z, exp: exp - z as i32 }
}

/// The full product of two 128-bit numbers, as `(high, low)`.
fn mul_wide(a: u128, b: u128) -> (u128, u128) {
    let m64: u128 = (1u128 << 64) - 1;
    let (a1, a0) = (a >> 64, a & m64);
    let (b1, b0) = (b >> 64, b & m64);
    let p00 = a0 * b0;
    let p01 = a0 * b1;
    let p10 = a1 * b0;
    let p11 = a1 * b1;
    let mid = (p00 >> 64) + (p01 & m64) + (p10 & m64);
    let lo = (p00 & m64) | ((mid & m64) << 64);
    let hi = p11 + (p01 >> 64) + (p10 >> 64) + (mid >> 64);
    (hi, lo)
}

impl Big {
    fn from_f64(x: f64) -> Big {
        if x == 0.0 {
            return ZERO;
        }
        let bits = x.to_bits();
        let e = ((bits >> 52) & 0x7ff) as i32;
        let f = (bits & 0xf_ffff_ffff_ffff) as u128;
        let (m, e) = if e == 0 { (f, -1074) } else { (f | (1 << 52), e - 1075) };
        norm(x < 0.0, m, e)
    }

    fn from_dd(x: Df64) -> Big {
        let (h, l) = parts(x);
        Big::from_f64(h).add(Big::from_f64(l))
    }


    fn is_zero(self) -> bool {
        self.mant == 0
    }

    fn neg(self) -> Big {
        Big { neg: !self.neg, ..self }
    }

    fn abs(self) -> Big {
        Big { neg: false, ..self }
    }

    fn add(self, other: Big) -> Big {
        if self.is_zero() {
            return other;
        }
        if other.is_zero() {
            return self;
        }
        let (a, b) = if (self.exp, self.mant) >= (other.exp, other.mant) {
            (self, other)
        } else {
            (other, self)
        };
        let d = a.exp - b.exp;
        let am = a.mant >> 1;
        let bm = if d >= 127 { 0 } else { (b.mant >> 1) >> d };
        let m = if a.neg == b.neg { am + bm } else { am - bm };
        norm(a.neg, m, a.exp + 1)
    }

    fn sub(self, other: Big) -> Big {
        self.add(other.neg())
    }

    fn mul(self, other: Big) -> Big {
        if self.is_zero() || other.is_zero() {
            return ZERO;
        }
        let (h, l) = mul_wide(self.mant, other.mant);
        let (m, e) = if h >> 127 == 1 { (h, 128) } else { ((h << 1) | (l >> 127), 127) };
        norm(self.neg != other.neg, m, self.exp + other.exp + e)
    }



    fn to_f64(self) -> f64 {
        if self.is_zero() {
            return 0.0;
        }
        let m = (self.mant >> 64) as f64;
        let v = m * 2f64.powi(self.exp + 64);
        if self.neg { -v } else { v }
    }
}


/// `|a - b| / m` as a binary64 number, for `m > 0`.
fn rel(a: Big, b: Big, m: Big) -> f64 {
    let d = a.sub(b).abs();
    if d.is_zero() {
        return 0.0;
    }
    ((d.mant >> 64) as f64) / ((m.mant >> 64) as f64) * 2f64.powi(d.exp - m.exp)
}

/// `u^2 = 2^-106`.
const U2: f64 = f64::EPSILON * f64::EPSILON / 4.0;

/// A few normalized double-double numbers of both signs and assorted
/// magnitudes, as 2Sum builds them.
fn samples() -> Vec<Df64> {
    let mut state: u64 = 0x2545_f491_4f6c_dd1d;
    let mut next = || {
        state ^= state << 13;
        state ^= state >> 7;
        state ^= state << 17;
        state
    };
    let mut v = Vec::new();
    for k in 0..40 {
        let m = (next() >> 11) as f64 / (1u64 << 53) as f64 + 0.5;
        let l = ((next() >> 11) as f64 / (1u64 << 53) as f64 - 0.5) * 1e-16;
        let e = (k % 9) as i32 * 7 - 28;
        let s = if k % 3 == 0 { -1.0 } else { 1.0 };
        let hi = s * m * 2f64.powi(e);
        v.push(add_dd(hi.to_bits(), (l * hi).to_bits()));
    }
    v
}

#[test]
fn test_mul_error_bounds() {
    let xs = samples();
    for i in 0..xs.len() {
        let x = xs[i];
        let y = xs[(i * 7 + 3) % xs.len()];
        let (xh, _) = parts(x);
        let (yh, _) = parts(y);
        let exact = Big::from_dd(x).mul(Big::from_dd(y));
        let m = Big::from_f64(xh).mul(Big::from_f64(yh)).abs();
        // mul_qq: within 7 u^2 of |x.hi y.hi|
        let r = mul_qq(x, y);
        assert!(rel(Big::from_dd(r), exact, m) <= 7.0 * U2, "mul_qq {:?} {:?}", parts(x), parts(y));
        // mul_qd: within 2 u^2 of |x.hi y|
        let r = mul_qd(x, yh.to_bits());
        let exact = Big::from_dd(x).mul(Big::from_f64(yh));
        assert!(rel(Big::from_dd(r), exact, m) <= 2.0 * U2, "mul_qd {:?} {:?}", parts(x), yh);
    }
}

#[test]
fn test_add_error_bounds() {
    // add_qq and addfast_qq within 8 u^2 of the exact sum, add_qd and
    // addfast_qd within 4 u^2 of it
    let xs = samples();
    for i in 0..xs.len() {
        let x = xs[i];
        let y = xs[(i * 5 + 1) % xs.len()];
        let (xh, _) = parts(x);
        let (yh, _) = parts(y);
        let exact = Big::from_dd(x).add(Big::from_dd(y));
        let m = exact.abs();
        assert!(rel(Big::from_dd(add_qq(x, y)), exact, m) <= 8.0 * U2 || exact.is_zero(), "add_qq {:?} {:?}", parts(x), parts(y));
        if xh.abs() >= yh.abs() {
            let r = Big::from_dd(addfast_qq(x, y));
            assert!(rel(r, exact, m) <= 8.0 * U2 || exact.is_zero(), "addfast_qq {:?} {:?}", parts(x), parts(y));
        }
        let exact = Big::from_dd(x).add(Big::from_f64(yh));
        let m = exact.abs();
        assert!(rel(Big::from_dd(add_qd(x, yh.to_bits())), exact, m) <= 4.0 * U2 || exact.is_zero(), "add_qd {:?} {:?}", parts(x), yh);
        if xh.abs() >= yh.abs() {
            let r = Big::from_dd(addfast_qd(x, yh.to_bits()));
            assert!(rel(r, exact, m) <= 4.0 * U2 || exact.is_zero(), "addfast_qd {:?} {:?}", parts(x), yh);
        }
    }
}

#[test]
fn test_add_cancelling_leading_parts() {
    // where the leading parts cancel, the sums are exact
    let x = Df64::new(1.0f64.to_bits(), 2f64.powi(-60).to_bits());
    let y = Df64::new((-1.0f64).to_bits(), 0.0f64.to_bits());
    let exact = Big::from_dd(x).add(Big::from_dd(y));
    assert!(Big::from_dd(add_qq(x, y)).sub(exact).is_zero());
    assert!(Big::from_dd(addfast_qq(x, y)).sub(exact).is_zero());
    assert!(Big::from_dd(add_qd(x, (-1.0f64).to_bits())).sub(exact).is_zero());
    assert!(Big::from_dd(addfast_qd(x, (-1.0f64).to_bits())).sub(exact).is_zero());
    assert_eq!(parts(add_qq(x, y)), (2f64.powi(-60), 0.0));
    // the compensates' sum exceeds the leading sum in magnitude
    let x = Df64::new((2.0 - 2f64.powi(-52)).to_bits(), (-2f64.powi(-54)).to_bits());
    let y = Df64::new((-2.0f64).to_bits(), (-2f64.powi(-52)).to_bits());
    let exact = Big::from_dd(x).add(Big::from_dd(y));
    assert!(Big::from_dd(add_qq(x, y)).sub(exact).is_zero());
    assert_eq!(parts(add_qq(x, y)), (-(2f64.powi(-51) + 2f64.powi(-54)), 0.0));
    // a partial cancellation stays within 8 u^2 of the exact sum
    let x = Df64::new(1.5f64.to_bits(), 2f64.powi(-60).to_bits());
    let y = Df64::new((-1.25f64).to_bits(), (-3.0 * 2f64.powi(-58)).to_bits());
    let exact = Big::from_dd(x).add(Big::from_dd(y));
    assert!(rel(Big::from_dd(add_qq(x, y)), exact, exact.abs()) <= 8.0 * U2);
}

#[test]
fn test_identities_are_exact() {
    // x * 1 == 1 * x == x, x + 0 == x, x + (-x) == 0
    let one = Df64::new(1.0f64.to_bits(), 0.0f64.to_bits());
    let zero = Df64::new(0.0f64.to_bits(), 0.0f64.to_bits());
    for x in samples() {
        let (xh, xl) = parts(x);
        assert_eq!(parts(mul_qq(x, one)), (xh, xl));
        assert_eq!(parts(mul_qq(one, x)), (xh, xl));
        assert_eq!(parts(add_qq(x, zero)), (xh, xl));
        let neg = Df64::new((-xh).to_bits(), (-xl).to_bits());
        assert_eq!(parts(add_qq(x, neg)), (0.0, 0.0));
    }
}

#[test]
fn test_square_sign_and_normalized() {
    // square_q(x) is not negative, and its parts are normalized
    for x in samples() {
        let (sh, sl) = parts(xprec::arith::square_q(x));
        assert!(sh >= 0.0, "square_q {:?}", parts(x));
        assert_eq!(sh + sl, sh, "square_q {:?}", parts(x));
        let neg = Df64::new((-parts(x).0).to_bits(), (-parts(x).1).to_bits());
        assert_eq!(parts(xprec::arith::square_q(neg)), (sh, sl));
    }
    // down to the subnormal range
    for &h in &[1e-150, -3e-155, 1.7e-160, -2e-162, 5e-200, 1e-310, -5e-324] {
        let x = Df64::new(f64::to_bits(h), f64::to_bits(h * 1e-17));
        let (sh, sl) = parts(xprec::arith::square_q(x));
        assert!(sh >= 0.0, "square_q {}", h);
        assert_eq!(sh + sl, sh, "square_q {}", h);
    }
}

#[test]
fn test_add_commutes() {
    let xs = samples();
    for i in 0..xs.len() {
        let x = xs[i];
        let y = xs[(i * 13 + 7) % xs.len()];
        assert_eq!(parts(add_qq(x, y)), parts(add_qq(y, x)), "{:?} {:?}", parts(x), parts(y));
    }
    let x = Df64::new(1.0f64.to_bits(), 2f64.powi(-60).to_bits());
    let y = Df64::new((-1.0f64).to_bits(), 0.0f64.to_bits());
    assert_eq!(parts(add_qq(x, y)), parts(add_qq(y, x)));
}

#[test]
fn test_div_error_bounds() {
    let xs = samples();
    for i in 0..xs.len() {
        let x = xs[i];
        let (xh, _) = parts(xs[(i * 3 + 2) % xs.len()]);
        let (yh, _) = parts(x);
        // div_dd: |r y - x| within 3 u^2 of |x|
        let r = div_dd(xh.to_bits(), yh.to_bits());
        let lhs = Big::from_dd(r).mul(Big::from_f64(yh));
        assert!(rel(lhs, Big::from_f64(xh), Big::from_f64(xh).abs()) <= 3.0 * U2, "div_dd {} {}", xh, yh);
        // reciprocal_d is div_dd of one
        let r = reciprocal_d(yh.to_bits());
        let lhs = Big::from_dd(r).mul(Big::from_f64(yh));
        assert!(rel(lhs, Big::from_f64(1.0), Big::from_f64(1.0)) <= 3.0 * U2, "reciprocal_d {}", yh);
        // div_qd: |r y - x| within 6 u^2 of |x.hi|
        let z = xs[(i * 3 + 2) % xs.len()];
        let r = div_qd(z, yh.to_bits());
        let lhs = Big::from_dd(r).mul(Big::from_f64(yh));
        assert!(rel(lhs, Big::from_dd(z), Big::from_f64(xh).abs()) <= 6.0 * U2, "div_qd {:?} {}", parts(z), yh);
    }
}

#[test]
fn test_sqrt_error_bound() {
    // the binary64 root q of a: 2^53 |q^2 - a| <= 3 a
    for &a in &[2.0, 3.0, 0.1, 1e-300, 7e250, 123456.789, f64::MIN_POSITIVE, 5e-324] {
        let q = f64::from_bits(xprec::ops::sqrt_enc(a.to_bits()));
        let qq = Big::from_f64(q).mul(Big::from_f64(q));
        let rel_err = rel(qq, Big::from_f64(a), Big::from_f64(a));
        assert!(rel_err * 2f64.powi(53) <= 3.0, "sqrt {}", a);
    }
}

#[test]
fn test_sqrt_d_error_bound() {
    // the square of sqrt_d(a) is within 12 u^2 a + 2^-1074 of a; for tiny
    // a the correction underflows and the absolute term dominates
    for &a in &[2.0f64, 3.0, 0.1, 1e-300, 7e250, 123456.789, 0.7, 1.5e-200] {
        let r = xprec::arith::sqrt_d(a.to_bits());
        let y = Big::from_dd(r);
        let rel_err = rel(y.mul(y), Big::from_f64(a), Big::from_f64(a));
        let tiny = f64::from_bits(1) / a;
        assert!(rel_err <= 12.0 * U2 + tiny, "sqrt_d {} {:?}", a, parts(r));
        if a > 1e-200 {
            assert!(rel_err <= 12.0 * U2, "sqrt_d {} {:?}", a, parts(r));
        }
    }
}

#[test]
fn test_sqrt_q_error_bound() {
    // the square of sqrt_q(a) is within 16 u^2 a.hi + 2^-1073 of a
    let xs = samples();
    let mut checked = 0;
    for &x in &xs {
        let (h, l) = parts(x);
        let a = if h < 0.0 { xprec::Compensated::new((-h).to_bits(), (-l).to_bits()) } else { x };
        let (ah, _) = parts(a);
        if ah < f64::MIN_POSITIVE || ah > 1e300 {
            continue;
        }
        let y = Big::from_dd(sqrt_q(a));
        let rel_err = rel(y.mul(y), Big::from_dd(a), Big::from_f64(ah));
        let tiny = 2.0 * f64::from_bits(1) / ah;
        assert!(rel_err <= 16.0 * U2 + tiny, "sqrt_q {:?}", parts(a));
        checked += 1;
    }
    assert!(checked > 0);
    // a double-double with a nonzero tail
    let a = xprec::Compensated::new(2.0f64.to_bits(), (2f64.powi(-60)).to_bits());
    let y = Big::from_dd(sqrt_q(a));
    assert!(rel(y.mul(y), Big::from_dd(a), Big::from_f64(2.0)) <= 16.0 * U2);
}

#[test]
fn test_reciprocal_q_error_bound() {
    // |r y - 1| <= 16 u^2 for the reciprocal r of a double-double y
    let xs = samples();
    let mut checked = 0;
    for &y in &xs {
        let (h, _) = parts(y);
        if h.abs() > 2f64.powi(960) || h.abs() < 1e-300 {
            continue;
        }
        let r = xprec::arith::reciprocal_q(y);
        let err = rel(Big::from_dd(r).mul(Big::from_dd(y)), Big::from_f64(1.0), Big::from_f64(1.0));
        assert!(err <= 16.0 * U2, "reciprocal_q {:?}", parts(y));
        checked += 1;
    }
    assert!(checked > 0);
    // a power of two with a tail: rh is zero and rl carries the correction
    let y = xprec::Compensated::new(2.0f64.to_bits(), (2f64.powi(-60)).to_bits());
    let r = xprec::arith::reciprocal_q(y);
    let err = rel(Big::from_dd(r).mul(Big::from_dd(y)), Big::from_f64(1.0), Big::from_f64(1.0));
    assert!(err <= 16.0 * U2);
}

#[test]
fn test_div_q_error_bounds() {
    // div_qq: |r y - x| <= 24 u^2 |x.hi|; div_dq: |r y - x| <= 19 u^2 |x|
    let xs = samples();
    for i in 0..xs.len() {
        let x = xs[i];
        let y = xs[(i * 11 + 5) % xs.len()];
        let (xh, _) = parts(x);
        let r = xprec::arith::div_qq(x, y);
        let lhs = Big::from_dd(r).mul(Big::from_dd(y));
        assert!(rel(lhs, Big::from_dd(x), Big::from_f64(xh).abs()) <= 24.0 * U2, "div_qq {:?} {:?}", parts(x), parts(y));
        let r = xprec::arith::div_dq(xh.to_bits(), y);
        let lhs = Big::from_dd(r).mul(Big::from_dd(y));
        assert!(rel(lhs, Big::from_f64(xh), Big::from_f64(xh).abs()) <= 19.0 * U2, "div_dq {} {:?}", xh, parts(y));
    }
}

#[test]
fn test_error_table_on_samples() {
    // the relative errors of the table of the crate documentation, on the
    // samples: mul_qq 4u^2, mul_qd 2u^2, add_qq 3u^2, add_qd 2u^2,
    // div_qd 3u^2, div_qq 6u^2, reciprocal_q 2.3u^2, sqrt_q 4u^2
    let xs = samples();
    let mut worst = [0.0f64; 8];
    for i in 0..xs.len() {
        let x = xs[i];
        let y = xs[(i * 7 + 3) % xs.len()];
        let (xh, xl) = parts(x);
        let (yh, _) = parts(y);
        let bx = Big::from_dd(x);
        let by = Big::from_dd(y);
        let exact = bx.mul(by);
        let e = rel(Big::from_dd(mul_qq(x, y)), exact, exact.abs());
        worst[0] = worst[0].max(e);
        let exact = bx.mul(Big::from_f64(yh));
        let e = rel(Big::from_dd(mul_qd(x, yh.to_bits())), exact, exact.abs());
        worst[1] = worst[1].max(e);
        let exact = bx.add(by);
        if !exact.is_zero() {
            let e = rel(Big::from_dd(add_qq(x, y)), exact, exact.abs());
            worst[2] = worst[2].max(e);
        }
        let exact = bx.add(Big::from_f64(yh));
        if !exact.is_zero() {
            let e = rel(Big::from_dd(add_qd(x, yh.to_bits())), exact, exact.abs());
            worst[3] = worst[3].max(e);
        }
        let r = div_qd(x, yh.to_bits());
        let e = rel(Big::from_dd(r).mul(Big::from_f64(yh)), bx, bx.abs());
        worst[4] = worst[4].max(e);
        let r = xprec::arith::div_qq(x, y);
        let e = rel(Big::from_dd(r).mul(by), bx, bx.abs());
        worst[5] = worst[5].max(e);
        let r = xprec::arith::reciprocal_q(y);
        let e = rel(Big::from_dd(r).mul(by), Big::from_f64(1.0), Big::from_f64(1.0));
        worst[6] = worst[6].max(e);
        if xh > 0.0 {
            let r = Big::from_dd(sqrt_q(x));
            // relative error of the root: half that of its square
            let e = rel(r.mul(r), bx, bx.abs()) / 2.0;
            worst[7] = worst[7].max(e);
        }
        let _ = xl;
    }
    let bounds = [4.0, 2.0, 3.0, 2.0, 3.0, 6.0, 2.3, 4.0];
    for k in 0..8 {
        assert!(worst[k] <= bounds[k] * U2, "entry {}: {} u^2", k, worst[k] / U2);
    }
}
