use xprec::ops::{add_enc, ceil_enc, floor_enc, sub_enc, trunc_enc};

/// A simple linear congruential sequence of bit patterns.
struct Lcg(u64);

impl Lcg {
    fn next(&mut self) -> u64 {
        self.0 = self.0.wrapping_mul(6364136223846793005).wrapping_add(1442695040888963407);
        self.0
    }

    /// A binary64 number with an exponent from a narrow window, so that
    /// operands interact, and now and then a special value.
    fn number(&mut self) -> f64 {
        let r = self.next();
        match r % 16 {
            0 => [0.0, -0.0, f64::INFINITY, f64::NEG_INFINITY, f64::NAN, f64::MIN_POSITIVE,
                  f64::MAX, -f64::MAX, 5e-324, -5e-324][(r >> 8) as usize % 10],
            1 => f64::from_bits(r),
            _ => {
                let exp = 1023 - 60 + ((r >> 52) % 120);
                let frac = r & 0xf_ffff_ffff_ffff;
                let sign = (r >> 63) << 63;
                f64::from_bits(sign | (exp << 52) | frac)
            }
        }
    }
}

fn same(a: u64, b: f64) -> bool {
    let b = b.to_bits();
    a == b || (f64::from_bits(a).is_nan() && f64::from_bits(b).is_nan())
}

#[test]
fn test_add_matches_hardware() {
    let mut g = Lcg(12345);
    for _ in 0..200000 {
        let x = g.number();
        let y = g.number();
        assert!(same(add_enc(x.to_bits(), y.to_bits()), x + y), "{:e} + {:e}", x, y);
        assert!(same(sub_enc(x.to_bits(), y.to_bits()), x - y), "{:e} - {:e}", x, y);
    }
}

#[test]
fn test_add_edge_cases() {
    let cases = [
        (1.0, 1e-16),
        (1.0, 1.1102230246251565e-16),
        (1.0, -5.551115123125783e-17),
        (f64::MAX, f64::MAX),
        (f64::MAX, 9.979201547673598e291),
        (5e-324, 5e-324),
        (2.2250738585072014e-308, -5e-324),
        (1.0, -1.0),
        (-0.0, -0.0),
        (-0.0, 0.0),
        (f64::INFINITY, f64::NEG_INFINITY),
        (f64::INFINITY, 1.0),
        (4503599627370496.0, 0.5),
        (4503599627370497.0, 0.5),
        (9007199254740992.0, 1.0),
        (9007199254740992.0, -1.0),
        (1e300, 1e-300),
        (-1e300, 1e-300),
    ];
    for (x, y) in cases {
        assert!(same(add_enc(f64::to_bits(x), f64::to_bits(y)), x + y), "{:e} + {:e}", x, y);
        assert!(same(add_enc(f64::to_bits(y), f64::to_bits(x)), y + x), "{:e} + {:e}", y, x);
        assert!(same(sub_enc(f64::to_bits(x), f64::to_bits(y)), x - y), "{:e} - {:e}", x, y);
    }
}

#[test]
fn test_integer_rounding_matches_hardware() {
    let mut g = Lcg(777);
    for _ in 0..200000 {
        let x = g.number();
        assert!(same(floor_enc(x.to_bits()), x.floor()), "floor {:e}", x);
        assert!(same(ceil_enc(x.to_bits()), x.ceil()), "ceil {:e}", x);
        assert!(same(trunc_enc(x.to_bits()), x.trunc()), "trunc {:e}", x);
    }
    for x in [0.5, -0.5, 1.5, -1.5, 0.0, -0.0, 4503599627370495.5, -4503599627370495.5,
              1e-310, -1e-310, 2.5, -2.5, 1e20, -1e20] {
        assert!(same(floor_enc(f64::to_bits(x)), x.floor()), "floor {:e}", x);
        assert!(same(ceil_enc(f64::to_bits(x)), x.ceil()), "ceil {:e}", x);
        assert!(same(trunc_enc(f64::to_bits(x)), x.trunc()), "trunc {:e}", x);
    }
}

use xprec::ops::{div_enc, fma_enc, mul_enc};

#[test]
fn test_mul_div_match_hardware() {
    let mut g = Lcg(4242);
    for _ in 0..200000 {
        let x = g.number();
        let y = g.number();
        assert!(same(mul_enc(x.to_bits(), y.to_bits()), x * y), "{:e} * {:e}", x, y);
        assert!(same(div_enc(x.to_bits(), y.to_bits()), x / y), "{:e} / {:e}", x, y);
    }
    for (x, y) in [(1e-200, 1e-200), (1e200, 1e200), (1.5, 5e-324), (5e-324, 0.5),
                   (5e-324, 0.75), (2.2250738585072014e-308, 0.5), (1.0, 3.0), (-7.0, 3.0),
                   (0.0, 0.0), (1.0, 0.0), (-1.0, 0.0), (f64::INFINITY, 0.0),
                   (f64::INFINITY, f64::INFINITY), (1e308, 10.0), (1e-308, 1e10)] {
        assert!(same(mul_enc(f64::to_bits(x), f64::to_bits(y)), x * y), "{:e} * {:e}", x, y);
        assert!(same(div_enc(f64::to_bits(x), f64::to_bits(y)), x / y), "{:e} / {:e}", x, y);
        assert!(same(div_enc(f64::to_bits(y), f64::to_bits(x)), y / x), "{:e} / {:e}", y, x);
    }
}

#[test]
fn test_fma_matches_hardware() {
    let mut g = Lcg(99);
    for _ in 0..200000 {
        let x = g.number();
        let y = g.number();
        let z = g.number();
        assert!(same(fma_enc(x.to_bits(), y.to_bits(), z.to_bits()), x.mul_add(y, z)),
                "fma({:e}, {:e}, {:e})", x, y, z);
        // the error of a product, as 2Prod forms it
        let p = x * y;
        assert!(same(fma_enc(x.to_bits(), y.to_bits(), (-p).to_bits()), x.mul_add(y, -p)),
                "fma({:e}, {:e}, {:e})", x, y, -p);
    }
    for (x, y, z) in [(1.0, 1.0, -1.0), (-1.0, 1.0, 1.0), (0.0, 5.0, -0.0), (-0.0, 5.0, -0.0),
                      (f64::INFINITY, 0.0, 1.0), (f64::INFINITY, 1.0, f64::NEG_INFINITY),
                      (1e-300, 1e-300, 5e-324), (1e-300, 1e-300, -5e-324),
                      (1e300, 1e300, 1.0), (1.0000000000000002, 1.0000000000000002, -1.0),
                      (3.0, 1e-320, 1e-320), (1e-160, 1e-160, -1e-320)] {
        assert!(same(fma_enc(f64::to_bits(x), f64::to_bits(y), f64::to_bits(z)), x.mul_add(y, z)),
                "fma({:e}, {:e}, {:e})", x, y, z);
    }
}

use xprec::ops::sqrt_enc;

#[test]
fn test_sqrt_matches_hardware() {
    let mut g = Lcg(2024);
    for _ in 0..200000 {
        let x = g.number();
        assert!(same(sqrt_enc(x.to_bits()), x.sqrt()), "sqrt {:e}", x);
        let y = f64::from_bits(g.next() >> 1);
        assert!(same(sqrt_enc(y.to_bits()), y.sqrt()), "sqrt {:e}", y);
    }
    for x in [0.0, -0.0, 1.0, 2.0, 4.0, 5e-324, 1e-310, f64::MAX, f64::INFINITY, -1.0,
              f64::NEG_INFINITY, f64::NAN, 0.25, 1e300] {
        assert!(same(sqrt_enc(f64::to_bits(x)), x.sqrt()), "sqrt {:e}", x);
    }
}
