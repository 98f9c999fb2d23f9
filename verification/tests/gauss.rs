use xprec::arith::add_qq;
use xprec::checks::isclose_qq;
use xprec::gauss::gauss_legendre;
use xprec::{Compensated, Df64};

fn dd(hi: f64, lo: f64) -> Df64 {
    Compensated::new(hi.to_bits(), lo.to_bits())
}

/// `2^-105`: the precision of a double-double number.
const EPSILON: f64 = f64::EPSILON * f64::EPSILON / 2.0;

/// `|a - b| <= epsilon`, as `approx`'s absolute comparison of two
/// double-double numbers decides it.
fn abs_diff_eq(a: Df64, b: Df64, epsilon: f64) -> bool {
    isclose_qq(a, b, epsilon.to_bits(), 0.0f64.to_bits())
}

fn check_rule(xs: &[(f64, f64)], ws: &[(f64, f64)]) {
    let n = xs.len();
    let mut x: Vec<Df64> = vec![dd(0.0, 0.0); n];
    let mut w: Vec<Df64> = vec![dd(0.0, 0.0); n];
    assert!(gauss_legendre(&mut x, &mut w));
    for i in 0..n {
        let (xh, xl) = xs[i];
        let (wh, wl) = ws[i];
        assert!(abs_diff_eq(x[i], dd(xh, xl), EPSILON), "x[{}] = {:?}", i, (f64::from_bits(x[i].hi()), f64::from_bits(x[i].lo())));
        assert!(abs_diff_eq(w[i], dd(wh, wl), EPSILON), "w[{}] = {:?}", i, (f64::from_bits(w[i].hi()), f64::from_bits(w[i].lo())));
    }
}

const X5: [(f64, f64); 5] = [
    (-0.906179845938664, -2.909730553174891e-17),
    (-0.5384693101056831, 1.6678154894696646e-17),
    (0.0, 0.0),
    (0.5384693101056831, -1.6678154894696646e-17),
    (0.906179845938664, 2.909730553174891e-17),
];

const W5: [(f64, f64); 5] = [
    (0.23692688505618908, 2.6149055638876413e-18),
    (0.47862867049936647, -2.8616217915821202e-18),
    (0.5688888888888889, 4.934324553889585e-19),
    (0.47862867049936647, -2.8616217915821202e-18),
    (0.23692688505618908, 2.6149055638876413e-18),
];

#[test]
fn test_leg5() {
    check_rule(&X5, &W5);
}

const X7: [(f64, f64); 7] = [
    (-0.9491079123427585, -3.82579658786657e-17),
    (-0.7415311855993945, 2.0220134774069897e-17),
    (-0.4058451513773972, 1.72492754475471e-17),
    (0.0, 0.0),
    (0.4058451513773972, -1.72492754475471e-17),
    (0.7415311855993945, -2.0220134774069897e-17),
    (0.9491079123427585, 3.82579658786657e-17),
];

const W7: [(f64, f64); 7] = [
    (0.1294849661688697, -9.625448970284404e-18),
    (0.27970539148927664, 2.3267180221717138e-17),
    (0.3818300505051189, 2.1862747923824822e-17),
    (0.4179591836734694, -1.5497807119257288e-17),
    (0.3818300505051189, 2.1862747923824822e-17),
    (0.27970539148927664, 2.3267180221717138e-17),
    (0.1294849661688697, -9.625448970284404e-18),
];

#[test]
fn test_leg7() {
    check_rule(&X7, &W7);
}

const X16: [(f64, f64); 16] = [
    (-0.9894009349916499, 5.914095566469922e-18),
    (-0.9445750230732326, 2.4190068142444825e-17),
    (-0.8656312023878318, 1.1315677979849837e-17),
    (-0.755404408355003, -3.5241085894430354e-17),
    (-0.6178762444026438, 2.2123521973463665e-17),
    (-0.45801677765722737, -1.6662404170959257e-17),
    (-0.2816035507792589, 2.1958791252592132e-18),
    (-0.09501250983763744, 3.275947755433097e-19),
    (0.09501250983763744, -3.275947755433097e-19),
    (0.2816035507792589, -2.1958791252592132e-18),
    (0.45801677765722737, 1.6662404170959257e-17),
    (0.6178762444026438, -2.2123521973463665e-17),
    (0.755404408355003, 3.5241085894430354e-17),
    (0.8656312023878318, -1.1315677979849837e-17),
    (0.9445750230732326, -2.4190068142444825e-17),
    (0.9894009349916499, -5.914095566469922e-18),
];

const W16: [(f64, f64); 16] = [
    (0.027152459411754096, -1.56154670271636e-18),
    (0.062253523938647894, -7.690264522605704e-19),
    (0.09515851168249279, -8.783003597087393e-19),
    (0.12462897125553388, -4.841529802320495e-18),
    (0.14959598881657674, -3.887619883741701e-18),
    (0.16915651939500254, 2.323299329564479e-18),
    (0.18260341504492358, 5.090226510905207e-18),
    (0.1894506104550685, -5.883843495582664e-18),
    (0.1894506104550685, -5.883843495582664e-18),
    (0.18260341504492358, 5.090226510905207e-18),
    (0.16915651939500254, 2.323299329564479e-18),
    (0.14959598881657674, -3.887619883741701e-18),
    (0.12462897125553388, -4.841529802320495e-18),
    (0.09515851168249279, -8.783003597087393e-19),
    (0.062253523938647894, -7.690264522605704e-19),
    (0.027152459411754096, -1.56154670271636e-18),
];

#[test]
fn test_leg16() {
    check_rule(&X16, &W16);
}

#[test]
fn test_gauss_legendre_edges() {
    // order zero: nothing to fill
    let mut x: Vec<Df64> = Vec::new();
    let mut w: Vec<Df64> = vec![dd(7.0, 0.0)];
    assert!(gauss_legendre(&mut x, &mut w));
    assert_eq!(f64::from_bits(w[0].hi()), 7.0);
    // order one: the midpoint with weight two
    let mut x = vec![dd(0.0, 0.0)];
    let mut w = vec![dd(0.0, 0.0), dd(5.0, 0.0)];
    assert!(gauss_legendre(&mut x, &mut w));
    assert!(f64::from_bits(x[0].hi()).abs() < 1e-30);
    assert!(abs_diff_eq(w[0], dd(2.0, 0.0), EPSILON));
    // weights past the nodes are left alone
    assert_eq!(f64::from_bits(w[1].hi()), 5.0);
    // the weights of a rule sum to two
    let mut x = vec![dd(0.0, 0.0); 9];
    let mut w = vec![dd(0.0, 0.0); 9];
    assert!(gauss_legendre(&mut x, &mut w));
    let mut s = dd(0.0, 0.0);
    for i in 0..9 {
        s = add_qq(s, w[i]);
    }
    assert!(abs_diff_eq(s, dd(2.0, 0.0), 8.0 * EPSILON), "{:?}", parts_f(s));
}

fn parts_f(x: Df64) -> (f64, f64) {
    (f64::from_bits(x.hi()), f64::from_bits(x.lo()))
}
