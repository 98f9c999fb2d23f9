use xprec::arith::{
    add_qd, add_qq, addfast_qd, addfast_qq, div_qd, div_qq, mul_qd, mul_qq, reciprocal_q, sqrt_q,
    square_q,
};
use xprec::round::{ceil, floor, round, trunc};
use xprec::{Compensated, Df64};

fn dd(hi: f64, lo: f64) -> Df64 {
    Compensated::new(hi.to_bits(), lo.to_bits())
}

fn bits(x: Df64) -> (f64, f64) {
    (f64::from_bits(x.hi()), f64::from_bits(x.lo()))
}

fn same(x: (f64, f64), y: (f64, f64)) -> bool {
    let eq = |a: f64, b: f64| a.to_bits() == b.to_bits() || (a.is_nan() && b.is_nan());
    eq(x.0, y.0) && eq(x.1, y.1)
}

// The algorithms in hardware binary64, as references.

fn fast2sum(a: f64, b: f64) -> (f64, f64) {
    let s = a + b;
    (s, b - (s - a))
}

fn two_sum(a: f64, b: f64) -> (f64, f64) {
    let s = a + b;
    let ap = s - b;
    let bp = s - ap;
    (s, (a - ap) + (b - bp))
}

fn two_prod(a: f64, b: f64) -> (f64, f64) {
    let p = a * b;
    (p, a.mul_add(b, -p))
}

fn ref_add_qq(x: (f64, f64), y: (f64, f64), fast: bool) -> (f64, f64) {
    let s = if fast { fast2sum(x.0, y.0) } else { two_sum(x.0, y.0) };
    let t = two_sum(x.1, y.1);
    let c = s.1 + t.0;
    let v = fast2sum(s.0, c);
    let w = t.1 + v.1;
    fast2sum(v.0, w)
}

fn ref_mul_qd(x: (f64, f64), y: f64) -> (f64, f64) {
    let c = two_prod(x.0, y);
    fast2sum(c.0, x.1.mul_add(y, c.1))
}

fn ref_mul_qq(x: (f64, f64), y: (f64, f64)) -> (f64, f64) {
    let c = two_prod(x.0, y.0);
    let tl0 = x.1 * y.1;
    let tl1 = x.0.mul_add(y.1, tl0);
    let cl2 = x.1.mul_add(y.0, tl1);
    fast2sum(c.0, c.1 + cl2)
}

fn ref_reciprocal(y: (f64, f64)) -> (f64, f64) {
    let th = 1.0 / y.0;
    let rh = (-y.0).mul_add(th, 1.0);
    let rl = -y.1 * th;
    let e = fast2sum(rh, rl);
    let delta = ref_mul_qd(e, th);
    let s = fast2sum(th, delta.0);
    fast2sum(s.0, delta.1 + s.1)
}

fn ref_sqrt(a: (f64, f64)) -> (f64, f64) {
    let y0 = a.0.sqrt();
    if !(a.0 > f64::MIN_POSITIVE && a.0.is_finite()) {
        return (y0, 0.0);
    }
    let delta = ((-y0).mul_add(y0, a.0) + a.1) / (y0 + y0);
    fast2sum(y0, delta)
}

struct Lcg(u64);

impl Lcg {
    fn next(&mut self) -> u64 {
        self.0 = self.0.wrapping_mul(6364136223846793005).wrapping_add(1442695040888963407);
        self.0
    }

    /// A double-double number with a compensate below half an ulp.
    fn number(&mut self) -> (f64, f64) {
        let r = self.next();
        let exp = 1023 - 40 + ((r >> 52) % 80);
        let hi = f64::from_bits(((r >> 63) << 63) | (exp << 52) | (r & 0xf_ffff_ffff_ffff));
        let q = self.next();
        let frac = (q >> 11) as f64 / (1u64 << 53) as f64 - 0.5;
        let lo = hi * f64::EPSILON * frac;
        two_sum(hi, lo)
    }
}

#[test]
fn test_dd_arith_matches_hardware_algorithms() {
    let mut g = Lcg(31337);
    for _ in 0..50000 {
        let x = g.number();
        let y = g.number();
        let xd = dd(x.0, x.1);
        let yd = dd(y.0, y.1);
        assert!(same(bits(add_qq(xd, yd)), ref_add_qq(x, y, false)), "{:?} + {:?}", x, y);
        let (big, small) = if x.0.abs() >= y.0.abs() { (x, y) } else { (y, x) };
        assert!(same(bits(addfast_qq(dd(big.0, big.1), dd(small.0, small.1))),
                     ref_add_qq(big, small, true)), "{:?} + {:?}", big, small);
        assert!(same(bits(mul_qq(xd, yd)), ref_mul_qq(x, y)), "{:?} * {:?}", x, y);
        assert!(same(bits(square_q(xd)),
                     { let c = two_prod(x.0, x.0);
                       fast2sum(c.0, (x.1 + x.1).mul_add(x.0, c.1)) }), "{:?}^2", x);
        assert!(same(bits(mul_qd(xd, y.0.to_bits())), ref_mul_qd(x, y.0)), "{:?} * {:e}", x, y.0);
        assert!(same(bits(reciprocal_q(yd)), ref_reciprocal(y)), "1 / {:?}", y);
        assert!(same(bits(div_qq(xd, yd)), ref_mul_qq(ref_reciprocal(y), x)), "{:?} / {:?}", x, y);
        let s = two_sum(x.0, y.0);
        assert!(same(bits(add_qd(xd, y.0.to_bits())), fast2sum(s.0, x.1 + s.1)), "{:?} + {:e}", x, y.0);
        let s = fast2sum(big.0, small.0);
        assert!(same(bits(addfast_qd(dd(big.0, big.1), small.0.to_bits())), fast2sum(s.0, big.1 + s.1)));
        let th = x.0 / y.0;
        let rl = (-y.0).mul_add(th, x.0) + x.1;
        assert!(same(bits(div_qd(xd, y.0.to_bits())), fast2sum(th, rl / y.0)), "{:?} / {:e}", x, y.0);
        let a = (x.0.abs(), if x.0 < 0.0 { -x.1 } else { x.1 });
        assert!(same(bits(sqrt_q(dd(a.0, a.1))), ref_sqrt(a)), "sqrt {:?}", a);
    }
}

#[test]
fn test_sqrt_q_refines() {
    // 2 = y0^2 + residual; the refined root squares back to 2 to about
    // double-double precision.
    let r = bits(sqrt_q(dd(2.0, 0.0)));
    assert_eq!(r.0, std::f64::consts::SQRT_2);
    assert!(r.1 != 0.0);
    let sq = bits(square_q(dd(r.0, r.1)));
    assert_eq!(sq.0, 2.0);
    assert!(sq.1.abs() < 1e-30);
    // below the normal range the binary64 root is returned
    assert_eq!(bits(sqrt_q(dd(1e-310, 0.0))), (1e-310f64.sqrt(), 0.0));
    assert!(bits(sqrt_q(dd(-1.0, 0.0))).0.is_nan());
}

#[test]
fn test_equality_is_binary64_equality() {
    assert!(dd(0.0, 0.0) == dd(-0.0, 0.0));
    assert!(dd(1.0, -0.0) == dd(1.0, 0.0));
    assert!(dd(f64::NAN, 0.0) != dd(f64::NAN, 0.0));
    assert!(dd(1.0, 2f64.powi(-60)) != dd(1.0, 0.0));
    assert!(dd(2.5, 1e-17) == dd(2.5, 1e-17));
}

#[test]
fn test_rounding_is_exact() {
    // the value of the result is the integer rounding of x.hi + x.lo
    let two53 = 2f64.powi(53);
    assert_eq!(bits(ceil(dd(3.0, 1e-17))), (4.0, 0.0));
    assert_eq!(bits(floor(dd(two53, -0.25))), (two53 - 1.0, 0.0));
    assert_eq!(bits(ceil(dd(-two53, 0.25))), (-(two53 - 1.0), 0.0));
    assert_eq!(bits(trunc(dd(-two53, 0.25))), (-(two53 - 1.0), 0.0));
    assert_eq!(bits(trunc(dd(two53, -0.25))), (two53 - 1.0, 0.0));
    assert_eq!(bits(floor(dd(-3.0, 1e-17))), (-3.0, 0.0));
    // ceil(x) == -floor(-x)
    let mut g = Lcg(11);
    for _ in 0..5000 {
        let x = g.number();
        let c = bits(ceil(dd(x.0, x.1)));
        let f = bits(floor(dd(-x.0, -x.1)));
        assert_eq!(c.0 + c.1, -(f.0 + f.1), "ceil {:?}", x);
        assert_eq!(c.0, -f.0, "ceil {:?}", x);
        assert_eq!(c.1, -f.1, "ceil {:?}", x);
        // integer parts, normalized
        assert_eq!(c.0.fract(), 0.0);
        assert_eq!(c.1.fract(), 0.0);
        assert_eq!(c.0 + c.1, c.0);
        let t = bits(trunc(dd(x.0, x.1)));
        assert_eq!(t.0.fract(), 0.0);
        assert_eq!(t.1.fract(), 0.0);
        assert_eq!(t.0 + t.1, t.0);
    }
}

#[test]
fn test_rounding_to_integers() {
    assert_eq!(bits(floor(dd(2.5, 0.0))), (2.0, 0.0));
    assert_eq!(bits(ceil(dd(2.5, 0.0))), (3.0, 0.0));
    assert_eq!(bits(trunc(dd(-2.5, 0.0))), (-2.0, 0.0));
    assert_eq!(bits(round(dd(2.5, 0.0))), (3.0, 0.0));
    assert_eq!(bits(round(dd(-2.5, 0.0))), (-3.0, 0.0));
    assert_eq!(bits(round(dd(2.4, 0.0))), (2.0, 0.0));
    // the leading part is an integer; the compensate decides
    assert_eq!(bits(floor(dd(3.0, -1e-20))), (2.0, 0.0));
    assert_eq!(bits(ceil(dd(3.0, 1e-20))), (4.0, 0.0));
    assert_eq!(bits(ceil(dd(3.0, -1e-20))).0, 3.0);
    assert_eq!(bits(ceil(dd(3.0, -1e-20))).1.to_bits(), (-0.0f64).to_bits());
    assert_eq!(bits(trunc(dd(3.0, -1e-20))), (2.0, 0.0));
    assert_eq!(bits(trunc(dd(-3.0, 1e-20))), (-2.0, 0.0));
    assert_eq!(bits(floor(dd(1e20, 0.75))), (1e20, 0.0));
    assert_eq!(bits(floor(dd(1e20, -0.75))), (1e20, -1.0));
    // NaN stays NaN, infinities stay
    assert!(bits(floor(dd(f64::NAN, 0.0))).0.is_nan());
    assert_eq!(bits(floor(dd(f64::INFINITY, 0.0))).0, f64::INFINITY);
    // the sign of zero
    assert_eq!(bits(ceil(dd(-0.5, 0.0))).0.to_bits(), (-0.0f64).to_bits());
    assert_eq!(bits(floor(dd(0.5, 0.0))).0.to_bits(), 0);
    let mut g = Lcg(5);
    for _ in 0..20000 {
        let x = g.number();
        let f = bits(floor(dd(x.0, x.1)));
        // floor(x) <= x < floor(x) + 1, checked in double-double
        let d = two_sum(x.0, -f.0);
        let diff = d.0 + (d.1 + (x.1 - f.1));
        assert!(diff >= 0.0 && diff < 1.0, "floor {:?} = {:?}", x, f);
        assert_eq!(f.0.fract(), 0.0);
        assert_eq!(f.1.fract(), 0.0);
    }
}
