//! The accuracy of double-double arithmetic.
//!
//! Values are compared as integers: a finite binary64 number is `scaled(b)`
//! units of `2^-1074`, so that a product of two of them counts units of
//! `2^-2148`.  With `u = 2^-53`, a rounding errs by at most `u` of its
//! exact value, plus half a unit where the result is subnormal.
use crate::arith::{one, reciprocal_q_spec, square_q_spec, sqrt_d_spec, sqrt_q_spec, div_dd_spec, div_qd_spec, add_qd_spec, add_qq_spec, addfast_qd_spec, addfast_qq_spec, fast_two_sum, mul_qd_spec, mul_qq_spec, two_prod, two_sum};
use crate::ieee::{exp_field, significand, bitlen, enc_is_finite, enc_is_zero, lemma_units_bounds, lemma_bitlen_bounds, rne_shr, scaled, sign_bit, unit_shift, units};
use crate::laws::{law_fast_two_sum_exact, law_fast_two_sum_normalized, law_fast_two_sum_tail_small, law_two_prod_exact, law_two_sum_exact};
use crate::ops::{fadd, fdiv, ffma, fmul, fneg, fsqrt, fsub, is_isqrt, isqrt, lemma_fneg_value, lemma_isqrt_exists, magnitude, rnd_ratio, round_signed, with_sign};
use crate::rounding::{
    lemma_representable_small, lemma_pow2_le, dist, enc_parts, grid, lemma_enc_parts, lemma_rne_nearest, lemma_round_enc_value, overflows,
    rnd, round_enc, representable,
};
use vstd::arithmetic::div_mod::*;
use vstd::arithmetic::mul::*;
use vstd::arithmetic::power2::*;
use vstd::prelude::*;

verus! {

/// Rounding `m * 2^e` units (for `e <= 0`) to a binary64 magnitude errs by
/// at most `2^-53` of it, plus half a unit of `2^-1074` where the result is
/// subnormal: `2^53 * |r * 2^-e - m| <= m + 2^(52 - e)`.
pub proof fn lemma_rnd_relative(m: nat, e: int)
    requires
        e <= 0,
    ensures
        pow2(53) * dist((rnd(m, e) * pow2((-e) as nat)) as int, m as int) <= m + pow2(
            (52 - e) as nat,
        ),
{
    let g = grid(m, e);
    let k = (g - e) as nat;
    let q = rne_shr(m, k);
    lemma_pow2_adds(g, (-e) as nat);
    assert(rnd(m, e) * pow2((-e) as nat) == q * pow2(k)) by {
        lemma_mul_is_associative(q as int, pow2(g) as int, pow2((-e) as nat) as int);
    }
    lemma_pow2_pos((52 - e) as nat);
    if k == 0 {
        assert(q == m);
        lemma_mul_basics(m as int);
        assert(pow2(0) == 1) by {
            lemma2_to64();
        }
        assert(dist((q * pow2(k)) as int, m as int) == 0);
        lemma_mul_basics(pow2(53) as int);
    } else {
        lemma_rne_nearest(m, k, 0);
        let d = dist((q * pow2(k)) as int, m as int);
        assert(d == dist(m as int, (q * pow2(k)) as int));
        assert(d <= pow2((k - 1) as nat));
        lemma_mul_inequality(d as int, pow2((k - 1) as nat) as int, pow2(53) as int);
        lemma_mul_is_commutative(d as int, pow2(53) as int);
        lemma_mul_is_commutative(pow2((k - 1) as nat) as int, pow2(53) as int);
        lemma_pow2_adds(53, (k - 1) as nat);
        if g > 0 {
            lemma_bitlen_bounds(m);
            assert(53 + (k - 1) == bitlen(m) - 1);
        } else {
            assert(53 + (k - 1) == 52 - e);
        }
    }
}

/// Rounding `v` units of `2^-2148` to a finite binary64 number (as a
/// product or a fused multiply-add does) errs by at most `2^-53` of `|v|`,
/// plus half a unit of `2^-1074`.
pub proof fn lemma_round_signed_relative(v: int, zneg: bool)
    requires
        !overflows(rnd(magnitude(v), -1074)),
    ensures
        enc_is_finite(round_signed(v, -1074, zneg)),
        pow2(53) * dist(scaled(round_signed(v, -1074, zneg)) * pow2(1074), v) <= magnitude(v)
            + pow2(1126),
{
    lemma_rnd_relative(magnitude(v), -1074);
    let r = round_signed(v, -1074, zneg);
    if v == 0 {
        lemma2_to64();
        lemma_enc_parts(zneg, 0, 0);
        assert(units(r) == 0) by {
            lemma_mul_basics(pow2(unit_shift(r)) as int);
        }
        assert(scaled(r) == 0);
        lemma_mul_basics(pow2(1074) as int);
        lemma_mul_basics(pow2(53) as int);
        lemma_pow2_pos(1126);
    } else {
        lemma_round_enc_value(v < 0, magnitude(v), -1074);
        let q = rnd(magnitude(v), -1074);
        assert(units(r) == q);
        if v < 0 {
            lemma_mul_unary_negation(q as int, pow2(1074) as int);
            assert(dist(scaled(r) * pow2(1074), v) == dist((q * pow2(1074)) as int, magnitude(v) as int));
        } else {
            assert(dist(scaled(r) * pow2(1074), v) == dist((q * pow2(1074)) as int, magnitude(v) as int));
        }
    }
}

/// Rounding an integer number of units of `2^-1074` (as a sum does) errs
/// by at most `2^-53` of it: `2^53 * |rnd(m) - m| <= m`.
pub proof fn lemma_rnd_relative_units(m: nat)
    ensures
        pow2(53) * dist(rnd(m, 0) as int, m as int) <= m,
{
    crate::rounding::lemma_rnd_error(m);
    let g = grid(m, 0);
    if g == 0 {
        lemma_mul_basics(pow2(53) as int);
    } else {
        let d = dist(rnd(m, 0) as int, m as int);
        lemma_mul_inequality(d as int, pow2((g - 1) as nat) as int, pow2(53) as int);
        lemma_mul_is_commutative(d as int, pow2(53) as int);
        lemma_mul_is_commutative(pow2((g - 1) as nat) as int, pow2(53) as int);
        lemma_pow2_adds(53, (g - 1) as nat);
        lemma_bitlen_bounds(m);
    }
}

/// A finite binary64 sum errs by at most `2^-53` of the exact sum.
pub proof fn lemma_fadd_relative(a: u64, b: u64)
    requires
        enc_is_finite(a),
        enc_is_finite(b),
        enc_is_finite(fadd(a, b)),
    ensures
        pow2(53) * dist(scaled(fadd(a, b)), scaled(a) + scaled(b)) <= magnitude(
            scaled(a) + scaled(b),
        ),
{
    let v = scaled(a) + scaled(b);
    let r = fadd(a, b);
    lemma_rnd_relative_units(magnitude(v));
    if v == 0 {
        lemma2_to64();
        lemma_enc_parts(sign_bit(a) && sign_bit(b), 0, 0);
        assert(units(r) == 0) by {
            lemma_mul_basics(pow2(unit_shift(r)) as int);
        }
        lemma_mul_basics(pow2(53) as int);
    } else {
        lemma_round_enc_value(v < 0, magnitude(v), 0);
    }
}

/// A finite rounding of `v` units of `2^-2148` does not overflow.
proof fn lemma_finite_no_overflow(v: int, zneg: bool)
    requires
        enc_is_finite(round_signed(v, -1074, zneg)),
    ensures
        !overflows(rnd(magnitude(v), -1074)),
{
    if v != 0 {
        lemma_round_enc_value(v < 0, magnitude(v), -1074);
    } else {
        crate::rounding::lemma_rnd_zero(-1074);
        lemma_pow2_pos(2098);
    }
}

/// A finite binary64 product of finite numbers errs by at most `2^-53` of
/// the exact product plus half a unit: in units of `2^-2148`,
/// `2^53 |p 2^1074 - a b| <= |a b| + 2^1126`.
pub proof fn lemma_fmul_relative(a: u64, b: u64)
    requires
        enc_is_finite(a),
        enc_is_finite(b),
        enc_is_finite(fmul(a, b)),
    ensures
        pow2(53) * dist(scaled(fmul(a, b)) * pow2(1074), scaled(a) * scaled(b)) <= magnitude(
            scaled(a) * scaled(b),
        ) + pow2(1126),
{
    let neg = sign_bit(a) != sign_bit(b);
    assert(fmul(a, b) == round_signed(scaled(a) * scaled(b), -1074, neg));
    lemma_finite_no_overflow(scaled(a) * scaled(b), neg);
    lemma_round_signed_relative(scaled(a) * scaled(b), neg);
}

/// A finite fused multiply-add of finite numbers errs by at most `2^-53`
/// of the exact result plus half a unit: in units of `2^-2148`,
/// `2^53 |f 2^1074 - (a b + c 2^1074)| <= |a b + c 2^1074| + 2^1126`.
pub proof fn lemma_ffma_relative(a: u64, b: u64, c: u64)
    requires
        enc_is_finite(a),
        enc_is_finite(b),
        enc_is_finite(c),
        enc_is_finite(ffma(a, b, c)),
    ensures
        pow2(53) * dist(
            scaled(ffma(a, b, c)) * pow2(1074),
            scaled(a) * scaled(b) + scaled(c) * pow2(1074),
        ) <= magnitude(scaled(a) * scaled(b) + scaled(c) * pow2(1074)) + pow2(1126),
{
    let v = scaled(a) * scaled(b) + scaled(c) * pow2(1074);
    let z = (sign_bit(a) != sign_bit(b)) && sign_bit(c);
    assert(ffma(a, b, c) == round_signed(v, -1074, z));
    lemma_finite_no_overflow(v, z);
    lemma_round_signed_relative(v, z);
}

/// The product of a double-double number and a binary64 number, `mul_qd`,
/// errs by at most `2 u^2` of `|x.hi * y|` (`u = 2^-53`), plus less than
/// `2^-1074`.  This holds for a normalized `x` (`|x.lo| <= u |x.hi|`),
/// where the product `x.hi * y` is finite and its error term does not
/// underflow (the unit shifts of `x.hi` and `y` add up to 1074 or more),
/// the fused multiply-add that gathers the low-order terms is finite, and
/// the final Fast2Sum finds its operands ordered with a finite sum.  In
/// units of `2^-2148`, with `r` the result:
/// `2^106 |(r.hi + r.lo) - (x.hi + x.lo) y| <= 2 |x.hi y| + 2^1179 + 2^1126`.
#[verifier::rlimit(40)]
#[verifier::spinoff_prover]
pub proof fn law_mul_qd_error(xh: u64, xl: u64, y: u64)
    requires
        enc_is_finite(xh),
        enc_is_finite(xl),
        enc_is_finite(y),
        pow2(53) * units(xl) <= units(xh),
        unit_shift(xh) + unit_shift(y) >= 1074,
        enc_is_finite(two_prod(xh, y).0),
        enc_is_finite(ffma(xl, y, two_prod(xh, y).1)),
        units(ffma(xl, y, two_prod(xh, y).1)) <= units(two_prod(xh, y).0),
        enc_is_finite(mul_qd_spec((xh, xl), y).0),
    ensures
        ({
            let r = mul_qd_spec((xh, xl), y);
            let e = (scaled(r.0) + scaled(r.1)) * pow2(1074) - (scaled(xh) + scaled(xl)) * scaled(
                y,
            );
            pow2(106) * magnitude(e) <= 2 * magnitude(scaled(xh) * scaled(y)) + pow2(1179) + pow2(
                1126,
            )
        }),
{
    let c = two_prod(xh, y);
    let x0 = scaled(xh);
    let x1 = scaled(xl);
    let yy = scaled(y);
    law_two_prod_exact(xh, y);
    let c0 = scaled(c.0);
    let c1 = scaled(c.1);
    let p2 = pow2(1074) as int;
    assert((c0 + c1) * p2 == x0 * yy);
    // The product x.hi * y, rounded once.
    let neg = sign_bit(xh) != sign_bit(y);
    assert(c.0 == round_signed(x0 * yy, -1074, neg));
    lemma_finite_no_overflow(x0 * yy, neg);
    lemma_round_signed_relative(x0 * yy, neg);
    let d1 = dist(c0 * p2, x0 * yy);
    assert(d1 == magnitude(c1 * p2)) by {
        lemma_mul_is_distributive_add_other_way(p2, c0, c1);
    }
    // The low-order terms, gathered by one fused multiply-add.
    let v = x1 * yy + c1 * p2;
    let cl = ffma(xl, y, c.1);
    let zneg = (sign_bit(xl) != sign_bit(y)) && sign_bit(c.1);
    assert(cl == round_signed(v, -1074, zneg));
    lemma_finite_no_overflow(v, zneg);
    lemma_round_signed_relative(v, zneg);
    let l = scaled(cl);
    // The final Fast2Sum is exact.
    law_fast_two_sum_exact(c.0, cl);
    let r = mul_qd_spec((xh, xl), y);
    assert(scaled(r.0) + scaled(r.1) == c0 + l);
    let e = (c0 + l) * p2 - (x0 + x1) * yy;
    assert(e == l * p2 - v) by {
        lemma_mul_is_distributive_add_other_way(p2, c0, c1);
        lemma_mul_is_distributive_add_other_way(p2, c0, l);
        lemma_mul_is_distributive_add_other_way(yy, x0, x1);
    }
    // |x.lo * y| <= u |x.hi * y|
    let m0 = magnitude(x0 * yy);
    let m1 = magnitude(x1 * yy);
    assert(pow2(53) * m1 <= m0) by {
        lemma_mul_inequality(
            (pow2(53) * units(xl)) as int,
            units(xh) as int,
            magnitude(yy) as int,
        );
        lemma_mul_is_associative(pow2(53) as int, units(xl) as int, magnitude(yy) as int);
        assert(magnitude(x1 * yy) == units(xl) * magnitude(yy)) by {
            lemma_mul_unary_negation(units(xl) as int, yy);
            lemma_mul_is_commutative(units(xl) as int, yy);
            lemma_mul_unary_negation(yy, units(xl) as int);
        }
        assert(magnitude(x0 * yy) == units(xh) * magnitude(yy)) by {
            lemma_mul_unary_negation(units(xh) as int, yy);
            lemma_mul_is_commutative(units(xh) as int, yy);
            lemma_mul_unary_negation(yy, units(xh) as int);
        }
    }
    let mc = magnitude(c1 * p2) as int;
    let mv = magnitude(v) as int;
    assert(mv <= m1 + mc);
    let big = pow2(1126) as int;
    let de = dist(l * p2, v);
    assert(magnitude(e) == de);
    assert(pow2(53) * de <= mv + big);
    assert(pow2(53) * mc <= m0 + big);
    lemma2_to64();
    lemma2_to64_rest();
    let u: int = 0x20_0000_0000_0000;
    assert(pow2(53) == u);
    lemma_pow2_adds(53, 53);
    lemma_pow2_adds(53, 1126);
    assert(pow2(106) == u * u);
    assert(pow2(1179) == u * big);
    let m0i = m0 as int;
    let m1i = m1 as int;
    assert(u * u * de <= 2 * m0i + big + u * big) by (nonlinear_arith)
        requires
            u == 0x20_0000_0000_0000,
            0 <= de,
            0 <= mv,
            0 <= mc,
            0 <= m1i,
            0 <= big,
            mv <= m1i + mc,
            u * m1i <= m0i,
            u * mc <= m0i + big,
            u * de <= mv + big,
    ;
}

/// `|a * b|` for integers.
pub proof fn lemma_magnitude_mul(a: int, b: int)
    ensures
        magnitude(a * b) == magnitude(a) * magnitude(b),
{
    if a < 0 {
        lemma_mul_unary_negation(-a, b);
    }
    if b < 0 {
        lemma_mul_unary_negation(b, magnitude(a) as int);
        lemma_mul_is_commutative(b, magnitude(a) as int);
        lemma_mul_unary_negation(magnitude(a) as int, -b);
    }
    if a < 0 && b < 0 {
        lemma_mul_unary_negation(-a, -b);
        lemma_mul_unary_negation(a, -b);
    }
}

/// Where `2^53 |xl| <= |xh|`, `2^53 |xl * y| <= |xh * y|`.
proof fn lemma_small_factor(xl: int, xh: int, y: int)
    requires
        pow2(53) * magnitude(xl) <= magnitude(xh),
    ensures
        pow2(53) * magnitude(xl * y) <= magnitude(xh * y),
{
    lemma_magnitude_mul(xl, y);
    lemma_magnitude_mul(xh, y);
    lemma_mul_inequality(
        (pow2(53) * magnitude(xl)) as int,
        magnitude(xh) as int,
        magnitude(y) as int,
    );
    lemma_mul_is_associative(pow2(53) as int, magnitude(xl) as int, magnitude(y) as int);
}

/// The product of two double-double numbers, `mul_qq`, errs by at most
/// `7 u^2` of `|x.hi * y.hi|` (`u = 2^-53`), plus at most `2^-1073`.  This
/// holds for normalized `x` and `y` (`|lo| <= u |hi|`), where the product
/// `x.hi * y.hi` is finite and its error term does not underflow (the unit
/// shifts of `x.hi` and `y.hi` add up to 1074 or more), the products and
/// sums of the low-order terms are finite, and the final Fast2Sum finds
/// its operands ordered with a finite sum.  In units of `2^-2148`, with `r`
/// the result:
/// `2^106 |(r.hi + r.lo) 2^1074 - (x.hi + x.lo)(y.hi + y.lo)| <= 7 |x.hi y.hi| + 2^1181`.
#[verifier::rlimit(60)]
#[verifier::spinoff_prover]
pub proof fn law_mul_qq_error(xh: u64, xl: u64, yh: u64, yl: u64)
    requires
        enc_is_finite(xh),
        enc_is_finite(xl),
        enc_is_finite(yh),
        enc_is_finite(yl),
        pow2(53) * units(xl) <= units(xh),
        pow2(53) * units(yl) <= units(yh),
        unit_shift(xh) + unit_shift(yh) >= 1074,
        enc_is_finite(two_prod(xh, yh).0),
        enc_is_finite(fmul(xl, yl)),
        enc_is_finite(ffma(xh, yl, fmul(xl, yl))),
        enc_is_finite(ffma(xl, yh, ffma(xh, yl, fmul(xl, yl)))),
        enc_is_finite(fadd(two_prod(xh, yh).1, ffma(xl, yh, ffma(xh, yl, fmul(xl, yl))))),
        units(fadd(two_prod(xh, yh).1, ffma(xl, yh, ffma(xh, yl, fmul(xl, yl))))) <= units(
            two_prod(xh, yh).0,
        ),
        enc_is_finite(mul_qq_spec((xh, xl), (yh, yl)).0),
    ensures
        ({
            let r = mul_qq_spec((xh, xl), (yh, yl));
            let e = (scaled(r.0) + scaled(r.1)) * pow2(1074) - (scaled(xh) + scaled(xl)) * (
            scaled(yh) + scaled(yl));
            pow2(106) * magnitude(e) <= 7 * magnitude(scaled(xh) * scaled(yh)) + pow2(1181)
        }),
{
    lemma2_to64();
    lemma2_to64_rest();
    let u: int = 0x20_0000_0000_0000;
    assert(pow2(53) == u);
    lemma_pow2_adds(53, 53);
    lemma_pow2_adds(53, 1126);
    lemma_pow2_adds(2, 1179);
    lemma_pow2_pos(1126);
    let hh = pow2(1126) as int;
    assert(pow2(106) == u * u);
    assert(pow2(1179) == u * hh);
    assert(pow2(1181) == 4 * u * hh) by {
        lemma2_to64();
    }
    let p2 = pow2(1074) as int;
    let x0 = scaled(xh);
    let x1 = scaled(xl);
    let y0 = scaled(yh);
    let y1 = scaled(yl);
    // The leading product, exactly.
    let c = two_prod(xh, yh);
    law_two_prod_exact(xh, yh);
    let c0 = scaled(c.0);
    let c1 = scaled(c.1);
    lemma_fmul_relative(xh, yh);
    assert(dist(c0 * p2, x0 * y0) == magnitude(c1 * p2)) by {
        lemma_mul_is_distributive_add_other_way(p2, c0, c1);
    }
    // tl0 = x.lo * y.lo
    let tl0 = fmul(xl, yl);
    lemma_fmul_relative(xl, yl);
    let t0 = scaled(tl0) * p2;
    // tl1 = x.hi * y.lo + tl0
    let tl1 = ffma(xh, yl, tl0);
    let v1 = x0 * y1 + scaled(tl0) * p2;
    lemma_ffma_relative(xh, yl, tl0);
    let t1 = scaled(tl1) * p2;
    // cl2 = x.lo * y.hi + tl1
    let cl2 = ffma(xl, yh, tl1);
    let v2 = x1 * y0 + scaled(tl1) * p2;
    lemma_ffma_relative(xl, yh, tl1);
    let t2 = scaled(cl2) * p2;
    // cl3 = c.lo + cl2
    let cl3 = fadd(c.1, cl2);
    lemma_fadd_relative(c.1, cl2);
    let d3 = dist(scaled(cl3), c1 + scaled(cl2));
    assert(dist(scaled(cl3) * p2, (c1 + scaled(cl2)) * p2) == d3 * p2) by {
        lemma_mul_is_distributive_add_other_way(p2, c1, scaled(cl2));
        if scaled(cl3) >= c1 + scaled(cl2) {
            lemma_mul_is_distributive_sub_other_way(p2, scaled(cl3), c1 + scaled(cl2));
        } else {
            lemma_mul_is_distributive_sub_other_way(p2, c1 + scaled(cl2), scaled(cl3));
        }
    }
    assert(u * (d3 * p2) <= magnitude(c1 + scaled(cl2)) * p2) by {
        lemma_mul_inequality(u * d3, magnitude(c1 + scaled(cl2)) as int, p2);
        lemma_mul_is_associative(u, d3, p2);
    }
    assert(magnitude(c1 + scaled(cl2)) * p2 == magnitude(c1 * p2 + t2)) by {
        lemma_mul_is_distributive_add_other_way(p2, c1, scaled(cl2));
        lemma_magnitude_mul(c1 + scaled(cl2), p2);
    }
    let t3 = scaled(cl3) * p2;
    // The final Fast2Sum is exact.
    law_fast_two_sum_exact(c.0, cl3);
    let r = mul_qq_spec((xh, xl), (yh, yl));
    assert(scaled(r.0) + scaled(r.1) == c0 + scaled(cl3));
    // The error is the sum of the four roundings.
    let e0 = t0 - x1 * y1;
    let e1 = t1 - v1;
    let e2 = t2 - v2;
    let e3 = t3 - (c1 * p2 + t2);
    let e = (scaled(r.0) + scaled(r.1)) * p2 - (x0 + x1) * (y0 + y1);
    assert(e == e0 + e1 + e2 + e3) by {
        lemma_mul_is_distributive_add_other_way(p2, c0, scaled(cl3));
        lemma_mul_is_distributive_add_other_way(p2, c0, c1);
        lemma_mul_is_distributive_add(x0 + x1, y0, y1);
        lemma_mul_is_distributive_add_other_way(y0, x0, x1);
        lemma_mul_is_distributive_add_other_way(y1, x0, x1);
    }
    // The sizes of the low-order products.
    let m = magnitude(x0 * y0) as int;
    let q01 = magnitude(x0 * y1) as int;
    let q10 = magnitude(x1 * y0) as int;
    let q0 = magnitude(x1 * y1) as int;
    lemma_small_factor(y1, y0, x0);
    lemma_mul_is_commutative(y1, x0);
    lemma_mul_is_commutative(y0, x0);
    lemma_small_factor(x1, x0, y0);
    lemma_small_factor(x1, x0, y1);
    assert(u * q01 <= m);
    assert(u * q10 <= m);
    assert(u * q0 <= q01);
    let a0 = magnitude(e0) as int;
    let a1 = magnitude(e1) as int;
    let a2 = magnitude(e2) as int;
    let a3 = magnitude(e3) as int;
    let mc = magnitude(c1 * p2) as int;
    assert(u * mc <= m + hh);
    assert(u * a0 <= q0 + hh);
    assert(u * a1 <= q01 + q0 + a0 + hh);
    assert(u * a2 <= q10 + q01 + q0 + a0 + a1 + hh);
    assert(c1 * p2 + t2 == (c1 + scaled(cl2)) * p2) by {
        lemma_mul_is_distributive_add_other_way(p2, c1, scaled(cl2));
    }
    assert(a3 == d3 * p2);
    assert(magnitude(c1 * p2 + t2) <= mc + magnitude(t2));
    assert(magnitude(t2) <= magnitude(v2) + a2);
    assert(magnitude(v2) <= q10 + magnitude(t1));
    assert(magnitude(t1) <= magnitude(v1) + a1);
    assert(magnitude(v1) <= q01 + magnitude(t0));
    assert(magnitude(t0) <= q0 + a0);
    assert(u * a3 <= mc + q10 + q01 + q0 + a0 + a1 + a2);
    assert(magnitude(e) <= a0 + a1 + a2 + a3);
    assert(u * u * magnitude(e) <= 7 * m + 4 * u * hh) by (nonlinear_arith)
        requires
            u == 0x20_0000_0000_0000,
            0 <= m,
            0 <= hh,
            0 <= q0,
            0 <= q01,
            0 <= q10,
            0 <= a0,
            0 <= a1,
            0 <= a2,
            0 <= a3,
            0 <= mc,
            u * q01 <= m,
            u * q10 <= m,
            u * q0 <= q01,
            u * mc <= m + hh,
            u * a0 <= q0 + hh,
            u * a1 <= q01 + q0 + a0 + hh,
            u * a2 <= q10 + q01 + q0 + a0 + a1 + hh,
            u * a3 <= mc + q10 + q01 + q0 + a0 + a1 + a2,
            magnitude(e) <= a0 + a1 + a2 + a3,
    ;
}

// ---------------------------------------------------------------------------
// Quotients

/// The quotient `r = rnd_ratio(n, d)` of `n / d` (in units) errs by at most
/// `2^-53` of `n / d` plus one unit: `2^53 |r d - n| <= n + 2^53 d`.
pub proof fn lemma_ratio_relative(n: nat, d: nat)
    requires
        d > 0,
    ensures
        pow2(53) * dist((rnd_ratio(n, d) * d) as int, n as int) <= n + pow2(53) * d,
{
    let big = pow2(2300);
    lemma_pow2_pos(2300);
    let n2 = n * big;
    let x = n2 / d;
    let rem = n2 % d;
    let sb: nat = if rem != 0 {
        1
    } else {
        0
    };
    let m = 2 * x + sb;
    let r = rnd_ratio(n, d);
    assert(r == rnd(m, -2301));
    lemma_rnd_relative(m, -2301);
    let p = pow2(2301) as int;
    lemma_pow2_adds(1, 2300);
    lemma2_to64();
    assert(p == 2 * big);
    let rp = (r * pow2(2301)) as int;
    // m d is within d of 2 n2
    vstd::arithmetic::div_mod::lemma_fundamental_div_mod(n2 as int, d as int);
    assert(n2 == d * x + rem);
    lemma_mul_is_commutative(d as int, x as int);
    assert(m * d == 2 * (x * d) + sb * d) by {
        lemma_mul_is_distributive_add_other_way(d as int, (2 * x) as int, sb as int);
        lemma_mul_is_associative(2, x as int, d as int);
    }
    let dm = dist((m * d) as int, (2 * n2) as int);
    assert(dm <= d) by {
        if rem == 0 {
            lemma_mul_basics(d as int);
        } else {
            lemma_mul_basics(d as int);
        }
    }
    // r 2^2301 d is within (m + 2^2353) d / 2^53 + d of 2 n2
    let dr = dist(rp, m as int);
    assert(pow2(53) * dr <= m + pow2(2353));
    let total = dist(rp * d, (2 * n2) as int);
    assert(total <= dr * d + dm) by {
        if rp >= m {
            lemma_mul_is_distributive_sub_other_way(d as int, rp, m as int);
        } else {
            lemma_mul_is_distributive_sub_other_way(d as int, m as int, rp);
        }
    }
    let u = pow2(53) as int;
    assert(u * total <= (m + pow2(2353)) * d + u * d) by {
        lemma_mul_inequality(total, dr * d + dm, u);
        lemma_mul_is_commutative(total, u);
        lemma_mul_is_commutative(dr * d + dm, u);
        lemma_mul_inequality(u * dr, (m + pow2(2353)) as int, d as int);
        lemma_mul_is_associative(u, dr, d as int);
        lemma_mul_is_distributive_add(u, dr * d, dm);
        lemma_mul_inequality(dm, d as int, u);
        lemma_mul_is_commutative(dm, u);
        lemma_mul_is_commutative(d as int, u);
    }
    assert((m + pow2(2353)) * d == m * d + pow2(2353) * d) by {
        lemma_mul_is_distributive_add_other_way(d as int, m as int, pow2(2353) as int);
    }
    lemma_pow2_adds(53, 2301);
    lemma_pow2_adds(1, 2353);
    lemma_pow2_strictly_increases(53, 2353);
    assert(u * total <= 2 * n2 + pow2(2354) * d) by {
        lemma_mul_inequality(1 + u, pow2(2353) as int, d as int);
        lemma_mul_is_distributive_add_other_way(d as int, 1, u);
        lemma_mul_is_distributive_add_other_way(d as int, pow2(2353) as int, pow2(2353) as int);
    }
    // total = 2^2301 |r d - n|
    let de = dist((r * d) as int, n as int);
    assert(rp * d == p * (r * d)) by {
        lemma_mul_is_associative(r as int, p, d as int);
        lemma_mul_is_commutative(r as int, p);
        lemma_mul_is_associative(p, r as int, d as int);
    }
    assert(2 * n2 == p * n) by {
        lemma_mul_is_commutative(n as int, big as int);
        lemma_mul_is_associative(2, big as int, n as int);
    }
    assert(total == p * de) by {
        if r * d >= n {
            lemma_mul_is_distributive_sub(p, (r * d) as int, n as int);
        } else {
            lemma_mul_is_distributive_sub(p, n as int, (r * d) as int);
        }
    }
    assert(pow2(2354) == p * u);
    assert(p * (u * de) <= p * (n + u * d)) by {
        lemma_mul_is_associative(p, u, de);
        lemma_mul_is_commutative(p, u);
        lemma_mul_is_associative(u, p, de);
        lemma_mul_is_distributive_add(p, n as int, u * d);
        lemma_mul_is_associative(p, u, d as int);
    }
    lemma_pow2_pos(2301);
    assert((u * de) * p <= (n + u * d) * p) by {
        lemma_mul_is_commutative(u * de, p);
        lemma_mul_is_commutative((n + u * d) as int, p);
    }
    lemma_mul_inequality_converse(u * de, (n + u * d) as int, p);
}

/// A finite binary64 quotient of finite numbers errs by at most `2^-53` of
/// the exact quotient, plus one unit of `2^-1074`: in units,
/// `2^53 |q b - a 2^1074| <= |a| 2^1074 + 2^53 |b|`.
pub proof fn lemma_fdiv_relative(a: u64, b: u64)
    requires
        enc_is_finite(a),
        enc_is_finite(b),
        !enc_is_zero(b),
        enc_is_finite(fdiv(a, b)),
    ensures
        pow2(53) * dist(scaled(fdiv(a, b)) * scaled(b), scaled(a) * pow2(1074)) <= magnitude(
            scaled(a),
        ) * pow2(1074) + pow2(53) * magnitude(scaled(b)),
{
    let q = fdiv(a, b);
    let p2 = pow2(1074) as int;
    let u = pow2(53) as int;
    lemma_units_bounds(a);
    lemma_units_bounds(b);
    lemma_pow2_pos(1074);
    lemma_pow2_pos(53);
    let d = units(b);
    let neg = sign_bit(a) != sign_bit(b);
    if enc_is_zero(a) {
        lemma2_to64();
        lemma_enc_parts(neg, 0, 0);
        assert(units(q) == 0) by {
            lemma_mul_basics(pow2(unit_shift(q)) as int);
        }
        assert(scaled(a) == 0);
        lemma_mul_basics(scaled(b));
        lemma_mul_basics(p2);
        lemma_mul_basics(u);
        lemma_mul_nonnegative(u, d as int);
    } else {
        let n = units(a) * pow2(1074);
        let big = pow2(2300);
        let x = (n * big) / d;
        let sb: nat = if (n * big) % d != 0 {
            1
        } else {
            0
        };
        assert(q == round_enc(neg, 2 * x + sb, -2301));
        lemma_round_enc_value(neg, 2 * x + sb, -2301);
        let r = rnd_ratio(n, d);
        assert(units(q) == r);
        lemma_ratio_relative(n, d);
        let rd = (r * d) as int;
        assert(scaled(q) * scaled(b) == (if sign_bit(a) { -rd } else { rd })) by {
            if sign_bit(q) {
                lemma_mul_unary_negation(r as int, scaled(b));
            }
            if sign_bit(b) {
                lemma_mul_unary_negation(r as int, d as int);
                lemma_mul_is_commutative(r as int, -(d as int));
                lemma_mul_unary_negation(-(d as int), r as int);
                lemma_mul_is_commutative(-(d as int), r as int);
            }
            if sign_bit(q) && sign_bit(b) {
                lemma_mul_unary_negation(-(r as int), -(d as int));
                lemma_mul_unary_negation(r as int, -(d as int));
            }
        }
        assert(scaled(a) * p2 == (if sign_bit(a) { -(n as int) } else { n as int })) by {
            if sign_bit(a) {
                lemma_mul_unary_negation(units(a) as int, p2);
            }
        }
        assert(magnitude(scaled(a)) * p2 == n);
        assert(magnitude(scaled(b)) == d);
    }
}

/// The quotient of two binary64 numbers, `div_dd`, errs by at most about
/// `2 u^2` of the exact quotient (`u = 2^-53`), plus about one unit of
/// `2^-1074`.  This holds where the quotient `th`, the remainder
/// `rl = a - b th` by a fused multiply-add, and the quotient `tl = rl / b`
/// are finite and `b` is not zero.  In units, with `r` the result:
/// `2^106 |(r.hi + r.lo) b - a 2^1074| <= 3 |a| 2^1074 + (2^106 + 2^56) |b| + 2^1180`.
#[verifier::rlimit(60)]
#[verifier::spinoff_prover]
pub proof fn law_div_dd_error(a: u64, b: u64)
    requires
        enc_is_finite(a),
        enc_is_finite(b),
        !enc_is_zero(b),
        enc_is_finite(div_dd_spec(a, b).0),
        enc_is_finite(ffma(fneg(b), div_dd_spec(a, b).0, a)),
        enc_is_finite(div_dd_spec(a, b).1),
    ensures
        ({
            let r = div_dd_spec(a, b);
            pow2(106) * dist((scaled(r.0) + scaled(r.1)) * scaled(b), scaled(a) * pow2(1074))
                <= 3 * magnitude(scaled(a)) * pow2(1074) + (pow2(106) + pow2(56)) * magnitude(
                scaled(b),
            ) + pow2(1180)
        }),
{
    lemma2_to64();
    lemma2_to64_rest();
    let u: int = 0x20_0000_0000_0000;
    assert(pow2(53) == u);
    lemma_pow2_adds(53, 53);
    lemma_pow2_adds(3, 53);
    lemma_pow2_adds(53, 1126);
    lemma_pow2_adds(1, 1179);
    assert(pow2(106) == u * u);
    assert(pow2(56) == 8 * u);
    let hh = pow2(1126) as int;
    lemma_pow2_pos(1126);
    assert(pow2(1179) == u * hh);
    assert(pow2(1180) == 2 * u * hh);
    let p2 = pow2(1074) as int;
    lemma_pow2_pos(1074);
    let th = fdiv(a, b);
    let rl = ffma(fneg(b), th, a);
    let tl = fdiv(rl, b);
    lemma_fneg_value(b);
    let bb = scaled(b);
    let aa = scaled(a);
    let tq = scaled(th);
    // th = a / b, rounded
    lemma_fdiv_relative(a, b);
    // rl = a - b th, rounded once
    let v1 = scaled(fneg(b)) * tq + aa * p2;
    let n1 = (sign_bit(fneg(b)) != sign_bit(th)) && sign_bit(a);
    assert(rl == round_signed(v1, -1074, n1));
    lemma_finite_no_overflow(v1, n1);
    lemma_round_signed_relative(v1, n1);
    assert(scaled(fneg(b)) * tq == -(bb * tq)) by {
        lemma_mul_unary_negation(bb, tq);
    }
    // tl = rl / b, rounded
    lemma_fdiv_relative(rl, b);
    let tq1 = scaled(tl);
    let rr = scaled(rl);
    // The error is the rounding of tl plus the rounding of rl.
    let e = dist((tq + tq1) * bb, aa * p2);
    let etl = dist(tq1 * bb, rr * p2);
    let erl = dist(rr * p2, v1);
    assert(e <= etl + erl) by {
        lemma_mul_is_distributive_add_other_way(bb, tq, tq1);
        lemma_mul_is_commutative(bb, tq);
    }
    let ma = magnitude(aa) as int;
    let mb = magnitude(bb) as int;
    let mv = magnitude(v1) as int;
    let mr = magnitude(rr) as int;
    assert(u * erl <= mv + hh);
    assert(u * etl <= mr * p2 + u * mb);
    assert(mr * p2 <= mv + erl) by {
        lemma_magnitude_mul(rr, p2);
    }
    assert(u * mv <= ma * p2 + u * mb) by {
        lemma_mul_is_commutative(bb, tq);
        lemma_mul_is_commutative(tq, bb);
    }
    let k = ma * p2;
    assert(u * u * e <= 3 * k + (u * u + 8 * u) * mb + 2 * u * hh) by (nonlinear_arith)
        requires
            u == 0x20_0000_0000_0000,
            0 <= k,
            0 <= mb,
            0 <= mv,
            0 <= hh,
            0 <= e,
            0 <= etl,
            0 <= erl,
            e <= etl + erl,
            u * erl <= mv + hh,
            u * etl <= mv + erl + u * mb,
            u * mv <= k + u * mb,
    ;
    assert(3 * magnitude(aa) * p2 == 3 * k) by {
        lemma_mul_is_associative(3, ma, p2);
    }
}

/// The quotient of a double-double number by a binary64 number, `div_qd`,
/// errs by at most about `6 u^2` of `|x.hi / y|` (`u = 2^-53`), plus terms
/// of the order of `2^-1074`.  This holds for a normalized `x`, where the
/// quotient `th`, the remainder `x.hi - y th` by a fused multiply-add, the
/// remainder plus `x.lo`, and its quotient `tl` by `y` are finite, `y` is not
/// zero, and the final Fast2Sum finds `tl` no larger than `th` with a
/// finite sum.  In units, with `r` the result:
/// `2^106 |(r.hi + r.lo) y - (x.hi + x.lo) 2^1074| <= 6 |x.hi| 2^1074 + (2^106 + 2^58) |y| + 2^1182`.
#[verifier::rlimit(80)]
#[verifier::spinoff_prover]
pub proof fn law_div_qd_error(xh: u64, xl: u64, y: u64)
    requires
        enc_is_finite(xh),
        enc_is_finite(xl),
        enc_is_finite(y),
        !enc_is_zero(y),
        pow2(53) * units(xl) <= units(xh),
        enc_is_finite(fdiv(xh, y)),
        enc_is_finite(ffma(fneg(y), fdiv(xh, y), xh)),
        enc_is_finite(fadd(ffma(fneg(y), fdiv(xh, y), xh), xl)),
        enc_is_finite(fdiv(fadd(ffma(fneg(y), fdiv(xh, y), xh), xl), y)),
        units(fdiv(fadd(ffma(fneg(y), fdiv(xh, y), xh), xl), y)) <= units(fdiv(xh, y)),
        enc_is_finite(div_qd_spec((xh, xl), y).0),
    ensures
        ({
            let r = div_qd_spec((xh, xl), y);
            pow2(106) * dist(
                (scaled(r.0) + scaled(r.1)) * scaled(y),
                (scaled(xh) + scaled(xl)) * pow2(1074),
            ) <= 6 * magnitude(scaled(xh)) * pow2(1074) + (pow2(106) + pow2(58)) * magnitude(
                scaled(y),
            ) + pow2(1182)
        }),
{
    lemma2_to64();
    lemma2_to64_rest();
    let u: int = 0x20_0000_0000_0000;
    assert(pow2(53) == u);
    lemma_pow2_adds(53, 53);
    lemma_pow2_adds(5, 53);
    lemma_pow2_adds(53, 1126);
    lemma_pow2_adds(3, 1179);
    assert(pow2(106) == u * u);
    assert(pow2(58) == 32 * u);
    let hh = pow2(1126) as int;
    lemma_pow2_pos(1126);
    assert(pow2(1179) == u * hh);
    assert(pow2(1182) == 8 * u * hh);
    let p2 = pow2(1074) as int;
    lemma_pow2_pos(1074);
    let th = fdiv(xh, y);
    let f = ffma(fneg(y), th, xh);
    let rl = fadd(f, xl);
    let tl = fdiv(rl, y);
    lemma_fneg_value(y);
    let yy = scaled(y);
    let x0 = scaled(xh);
    let x1 = scaled(xl);
    let tq = scaled(th);
    // th = x.hi / y, rounded
    lemma_fdiv_relative(xh, y);
    // f = x.hi - y th, rounded once
    let v1 = scaled(fneg(y)) * tq + x0 * p2;
    let n1 = (sign_bit(fneg(y)) != sign_bit(th)) && sign_bit(xh);
    assert(f == round_signed(v1, -1074, n1));
    lemma_finite_no_overflow(v1, n1);
    lemma_round_signed_relative(v1, n1);
    assert(scaled(fneg(y)) * tq == -(yy * tq)) by {
        lemma_mul_unary_negation(yy, tq);
    }
    let ff = scaled(f);
    // rl = f + x.lo, rounded
    lemma_fadd_relative(f, xl);
    let rr = scaled(rl);
    // tl = rl / y, rounded
    lemma_fdiv_relative(rl, y);
    let tq1 = scaled(tl);
    // the final Fast2Sum is exact
    law_fast_two_sum_exact(th, tl);
    let r = div_qd_spec((xh, xl), y);
    assert(scaled(r.0) + scaled(r.1) == tq + tq1);
    let e = dist((tq + tq1) * yy, (x0 + x1) * p2);
    let etl = dist(tq1 * yy, rr * p2);
    let ea = dist(rr, ff + x1);
    let ef = dist(ff * p2, v1);
    assert(e <= etl + ea * p2 + ef) by {
        lemma_mul_is_distributive_add_other_way(yy, tq, tq1);
        lemma_mul_is_commutative(yy, tq);
        lemma_mul_is_distributive_add_other_way(p2, x0, x1);
        lemma_mul_is_distributive_add_other_way(p2, ff, x1);
        if rr >= ff + x1 {
            lemma_mul_is_distributive_sub_other_way(p2, rr, ff + x1);
        } else {
            lemma_mul_is_distributive_sub_other_way(p2, ff + x1, rr);
        }
    }
    let m0 = magnitude(x0) as int;
    let m1 = magnitude(x1) as int;
    let my = magnitude(yy) as int;
    let mv = magnitude(v1) as int;
    let mf = magnitude(ff) as int;
    let mr = magnitude(rr) as int;
    let k = m0 * p2;
    assert(u * m1 <= m0);
    assert(u * (m1 * p2) <= k) by {
        lemma_mul_inequality(u * m1, m0, p2);
        lemma_mul_is_associative(u, m1, p2);
    }
    assert(u * mv <= k + u * my) by {
        lemma_mul_is_commutative(yy, tq);
        lemma_mul_is_commutative(tq, yy);
    }
    assert(u * ef <= mv + hh);
    assert(mf * p2 <= mv + ef) by {
        lemma_magnitude_mul(ff, p2);
    }
    assert(u * ea <= mf + m1);
    assert(u * (ea * p2) <= mf * p2 + m1 * p2) by {
        lemma_mul_inequality(u * ea, mf + m1, p2);
        lemma_mul_is_associative(u, ea, p2);
        lemma_mul_is_distributive_add_other_way(p2, mf, m1);
    }
    assert(mr <= mf + m1 + ea);
    assert(mr * p2 <= mf * p2 + m1 * p2 + ea * p2) by {
        lemma_mul_inequality(mr, mf + m1 + ea, p2);
        lemma_mul_is_distributive_add_other_way(p2, mf + m1, ea);
        lemma_mul_is_distributive_add_other_way(p2, mf, m1);
    }
    assert(u * etl <= mr * p2 + u * my) by {
        lemma_magnitude_mul(rr, p2);
    }
    let mfp = mf * p2;
    let m1p = m1 * p2;
    let eap = ea * p2;
    let mrp = mr * p2;
    assert(u * u * e <= 6 * k + (u * u + 32 * u) * my + 8 * u * hh) by (nonlinear_arith)
        requires
            u == 0x20_0000_0000_0000,
            0 <= k,
            0 <= my,
            0 <= mv,
            0 <= hh,
            0 <= e,
            0 <= etl,
            0 <= eap,
            0 <= ef,
            0 <= mfp,
            0 <= m1p,
            0 <= mrp,
            e <= etl + eap + ef,
            u * m1p <= k,
            u * mv <= k + u * my,
            u * ef <= mv + hh,
            mfp <= mv + ef,
            u * eap <= mfp + m1p,
            mrp <= mfp + m1p + eap,
            u * etl <= mrp + u * my,
    ;
    assert(6 * magnitude(x0) * p2 == 6 * k) by {
        lemma_mul_is_associative(6, m0, p2);
    }
}

// ---------------------------------------------------------------------------
// Square roots

/// The rounded root `z = 2x + s` of `4 m` (`x` the integer root of `m`,
/// `s` its sticky bit) squares to within `2 z + 1` of `4 m`.
proof fn lemma_sticky_root(m: nat, x: nat, sb: nat)
    requires
        is_isqrt(x, m),
        sb == (if x * x != m { 1nat } else { 0nat }),
    ensures
        dist(((2 * x + sb) * (2 * x + sb)) as int, (4 * m) as int) <= 2 * (2 * x + sb) + 1,
{
    if sb == 0 {
        assert((2 * x) * (2 * x) == 4 * (x * x)) by (nonlinear_arith);
    } else {
        assert(x * x + 1 <= m);
        assert(m + 1 <= (x + 1) * (x + 1));
        assert(dist(((2 * x + 1) * (2 * x + 1)) as int, (4 * m) as int) <= 2 * (2 * x + 1) + 1)
            by (nonlinear_arith)
            requires
                x * x + 1 <= m,
                m + 1 <= (x + 1) * (x + 1),
        ;
    }
}

/// A finite binary64 square root of a positive finite number errs by at
/// most about `2^-53` of the exact root; as a statement on squares, in
/// units of `2^-2148`: `2^53 |q^2 - a 2^1074| <= 3 a 2^1074`.
pub proof fn law_fsqrt_error(a: u64)
    requires
        enc_is_finite(a),
        !sign_bit(a),
        !enc_is_zero(a),
        enc_is_finite(fsqrt(a)),
    ensures
        pow2(53) * dist((units(fsqrt(a)) * units(fsqrt(a))) as int, (units(a) * pow2(1074)) as int)
            <= 3 * units(a) * pow2(1074),
{
    lemma2_to64();
    lemma2_to64_rest();
    let u: int = 0x20_0000_0000_0000;
    assert(pow2(53) == u);
    lemma_units_bounds(a);
    let n = units(a) * pow2(1074);
    let big = pow2(4600);
    let m = n * big;
    lemma_isqrt_exists(m);
    let x = isqrt(m);
    let sb: nat = if x * x != m {
        1
    } else {
        0
    };
    let z = 2 * x + sb;
    let q = fsqrt(a);
    assert(q == round_enc(false, z, -2301));
    lemma_round_enc_value(false, z, -2301);
    let r = units(q);
    assert(r == rnd(z, -2301));
    lemma_rnd_relative(z, -2301);
    let p = pow2(2301) as int;
    let zz = r * p;
    let d = dist(zz, z as int);
    let t = pow2(2353) as int;
    assert(u * d <= z + t);
    lemma_sticky_root(m, x, sb);
    // the root is large: m >= 2^5674, so x >= 2^2837
    lemma_pow2_adds(1074, 4600);
    lemma_pow2_pos(1074);
    lemma_pow2_pos(4600);
    assert(m >= pow2(5674)) by {
        lemma_mul_inequality(1, units(a) as int, pow2(1074) as int);
        lemma_mul_inequality(pow2(1074) as int, n as int, big as int);
    }
    lemma_pow2_adds(2837, 2837);
    let h = pow2(2837) as int;
    assert(x >= h) by {
        if x < h {
            assert((x + 1) * (x + 1) <= h * h) by (nonlinear_arith)
                requires
                    x + 1 <= h,
                    0 <= x,
            ;
        }
    }
    // t is small beside z, and u z beside m
    lemma_pow2_adds(10, 2353);
    lemma_pow2_le(2363, 2837);
    assert(1024 * t <= z);
    lemma_pow2_adds(12, 53);
    lemma_pow2_le(65, 2837);
    assert(4096 * u <= z);
    lemma_pow2_le(12, 2837);
    assert(1024 * z <= m) by {
        assert(1024 * z <= x * h) by (nonlinear_arith)
            requires
                z <= 2 * x + 1,
                x >= h,
                h >= 4096,
        ;
        assert(x * h <= x * x) by (nonlinear_arith)
            requires
                x >= h,
                h >= 0,
        ;
    }
    // zz^2 - 4m = (zz - z)(zz + z) + (z^2 - 4m)
    let e = dist(zz * zz, (4 * m) as int);
    let zi = z as int;
    let mi = m as int;
    assert(e <= d * (2 * zi + d) + 2 * zi + 1) by (nonlinear_arith)
        requires
            d == dist(zz, zi),
            dist(zi * zi, 4 * mi) <= 2 * zi + 1,
            0 <= zi,
            0 <= zz,
            e == dist(zz * zz, 4 * mi),
    ;
    assert(d * u <= 2 * zi);
    assert(u * (d * (2 * zi + d)) <= (zi + t) * (2 * zi + d)) by (nonlinear_arith)
        requires
            u * d <= zi + t,
            0 <= d,
            0 <= zi,
    ;
    assert(1000 * ((zi + t) * (2 * zi + d)) <= 2010 * (zi * zi)) by (nonlinear_arith)
        requires
            1024 * t <= zi,
            d * u <= 2 * zi,
            u == 0x20_0000_0000_0000,
            0 <= d,
            0 <= t,
            0 <= zi,
    ;
    assert(1000 * (u * (2 * zi + 1)) <= zi * zi) by (nonlinear_arith)
        requires
            4096 * u <= zi,
            u == 0x20_0000_0000_0000,
    ;
    assert(zi * zi <= 4 * mi + 2 * zi + 1);
    assert(u * e <= 12 * mi) by (nonlinear_arith)
        requires
            e <= d * (2 * zi + d) + 2 * zi + 1,
            u * (d * (2 * zi + d)) <= (zi + t) * (2 * zi + d),
            1000 * ((zi + t) * (2 * zi + d)) <= 2010 * (zi * zi),
            1000 * (u * (2 * zi + 1)) <= zi * zi,
            zi * zi <= 4 * mi + 2 * zi + 1,
            1024 * zi <= mi,
            u == 0x20_0000_0000_0000,
            0 <= e,
            0 <= d,
            0 <= zi,
    ;
    // back to the root and the radicand: zz^2 = r^2 2^4602, 4m = n 2^4602
    lemma_pow2_adds(2301, 2301);
    lemma_pow2_adds(2, 4600);
    let pp = pow2(4602) as int;
    assert(zz * zz == (r * r) * pp) by {
        lemma_mul_is_associative(r as int, p, (r * p) as int);
        lemma_mul_is_commutative(p, (r * p) as int);
        lemma_mul_is_associative(r as int, p, p);
        lemma_mul_is_associative(r as int, r as int, p * p);
        lemma_mul_is_associative(r as int, (r * p) as int, p);
    }
    assert(4 * m == n * pp) by {
        lemma_mul_is_associative(4, n as int, big as int);
        lemma_mul_is_commutative(4, n as int);
        lemma_mul_is_associative(n as int, 4, big as int);
    }
    let de = dist((r * r) as int, n as int);
    lemma_pow2_pos(4602);
    assert(e == pp * de) by {
        if r * r >= n {
            lemma_mul_is_distributive_sub_other_way(pp, (r * r) as int, n as int);
        } else {
            lemma_mul_is_distributive_sub_other_way(pp, n as int, (r * r) as int);
        }
        lemma_mul_is_commutative(pp, de);
    }
    assert(12 * mi == (3 * n) * pp) by {
        lemma_mul_is_associative(3, n as int, pp);
    }
    assert((u * de) * pp <= (3 * n) * pp) by {
        lemma_mul_is_associative(u, pp, de);
        lemma_mul_is_commutative(u, pp);
        lemma_mul_is_associative(pp, u, de);
        lemma_mul_is_commutative(pp, u * de);
    }
    lemma_mul_inequality_converse(u * de, (3 * n) as int, pp);
    assert(3 * units(a) * pow2(1074) == 3 * n) by {
        lemma_mul_is_associative(3, units(a) as int, pow2(1074) as int);
    }
}

/// The units of the encoding with the exponent field `e >= 1` and a zero
/// fraction: `2^52 * 2^(e - 1)`.
proof fn lemma_power_of_two_units(e: nat)
    requires
        1 <= e < 0x7ff,
    ensures
        units(enc_parts(false, e, 0)) == pow2(52) * pow2((e - 1) as nat),
        enc_is_finite(enc_parts(false, e, 0)),
        !sign_bit(enc_parts(false, e, 0)),
{
    lemma2_to64();
    lemma2_to64_rest();
    lemma_enc_parts(false, e, 0);
}

/// The root of a binary64 number with a correction, `sqrt_d`, is accurate
/// to double-double precision: for a positive normal `a`, where the root
/// `y0`, the remainder `a - y0^2` by a fused multiply-add, its quotient by
/// `y0` and the half of that quotient `t` are finite, the square of the
/// result `y0 + t` is within `12 u^2 a` of `a` (`u = 2^-53`), plus
/// `2^-1074`; so `y0 + t` is within about `6 u^2` of the root.  In units of
/// `2^-2148`: `2^106 |(y0 + t)^2 - a 2^1074| <= 12 a 2^1074 + 2^1180`.
#[verifier::rlimit(80)]
#[verifier::spinoff_prover]
pub proof fn law_sqrt_d_error(a: u64)
    requires
        crate::arith::is_positive_normal(a),
        enc_is_finite(fsqrt(a)),
        enc_is_finite(ffma(fneg(fsqrt(a)), fsqrt(a), a)),
        enc_is_finite(sqrt_d_spec(a).1),
        enc_is_finite(fdiv(ffma(fneg(fsqrt(a)), fsqrt(a), a), fsqrt(a))),
    ensures
        ({
            let r = sqrt_d_spec(a);
            let y = scaled(r.0) + scaled(r.1);
            pow2(106) * dist(y * y, scaled(a) * pow2(1074)) <= 12 * scaled(a) * pow2(1074) + pow2(
                1180,
            )
        }),
{
    lemma2_to64();
    lemma2_to64_rest();
    let u: int = 0x20_0000_0000_0000;
    assert(pow2(53) == u);
    lemma_pow2_adds(53, 53);
    assert(pow2(106) == u * u);
    let p2 = pow2(1074) as int;
    lemma_pow2_pos(1074);
    let hh = pow2(1126) as int;
    lemma_pow2_adds(52, 1074);
    lemma_pow2_adds(53, 1126);
    lemma_pow2_adds(1, 1179);
    assert(pow2(1180) == 2 * u * hh);
    // a is positive and normal: more than 2^52 units
    lemma_power_of_two_units(1);
    assert(enc_parts(false, 1, 0) == 0x0010_0000_0000_0000u64);
    assert(units(a) > pow2(52)) by {
        lemma_mul_basics(pow2(52) as int);
    }
    assert(!sign_bit(a));
    let n = (units(a) * pow2(1074)) as int;
    assert(n >= hh) by {
        lemma_mul_inequality(pow2(52) as int, units(a) as int, p2);
    }
    // y0: the binary64 root
    let y0 = fsqrt(a);
    law_fsqrt_error(a);
    let yy = units(y0) as int;
    let rho = dist(yy * yy, n);
    assert(u * rho <= 3 * n) by {
        lemma_mul_is_associative(3, units(a) as int, p2);
    }
    assert(!sign_bit(y0)) by {
        crate::rounding::lemma_round_enc_value(false, 2 * isqrt(n as nat * pow2(4600)) + (if isqrt(
            n as nat * pow2(4600),
        ) * isqrt(n as nat * pow2(4600)) != n as nat * pow2(4600) {
            1nat
        } else {
            0nat
        }), -2301);
    }
    assert(yy * yy > 0) by {
        assert(yy * yy >= n - rho);
    }
    assert(yy > 0) by {
        if yy == 0 {
            lemma_mul_basics(0);
        }
    }
    assert(!enc_is_zero(y0)) by {
        lemma_units_bounds(y0);
    }
    assert(scaled(y0) == yy);
    // v = a - y0^2, rounded once
    lemma_fneg_value(y0);
    let v = ffma(fneg(y0), y0, a);
    lemma_ffma_relative(fneg(y0), y0, a);
    assert(scaled(fneg(y0)) * scaled(y0) == -(yy * yy)) by {
        lemma_mul_unary_negation(yy, yy);
    }
    assert(scaled(a) * p2 == n);
    let vs = n - yy * yy;
    let rv = scaled(v);
    let a3 = dist(rv * p2, vs);
    assert(u * a3 <= rho + hh);
    // delta = v / y0, rounded
    let d = fdiv(v, y0);
    lemma_fdiv_relative(v, y0);
    let dd = scaled(d);
    let a2 = dist(dd * yy, rv * p2);
    let mr = magnitude(rv * p2) as int;
    assert(magnitude(rv) * p2 == mr) by {
        lemma_magnitude_mul(rv, p2);
    }
    assert(u * a2 <= mr + u * yy);
    // t = delta / 2, rounded
    let half = 0x3fe0_0000_0000_0000u64;
    lemma_power_of_two_units(1022);
    assert(enc_parts(false, 1022, 0) == half);
    lemma_pow2_adds(52, 1021);
    let hs = pow2(1073) as int;
    assert(scaled(half) == hs);
    let t = fmul(half, d);
    lemma_fmul_relative(half, d);
    let tt = scaled(t);
    let md = magnitude(dd) as int;
    assert(magnitude(hs * dd) == hs * md) by {
        lemma_magnitude_mul(hs, dd);
    }
    lemma_pow2_adds(1, 1073);
    lemma_pow2_adds(1073, 53);
    assert(p2 == 2 * hs);
    assert(hh == hs * u);
    let a1 = dist(2 * tt, dd);
    assert(dist(tt * p2, hs * dd) == hs * a1) by {
        lemma_mul_is_associative(tt, 2, hs);
        lemma_mul_is_commutative(tt * 2, hs);
        lemma_mul_is_commutative(hs, dd);
        if 2 * tt >= dd {
            lemma_mul_is_distributive_sub(hs, 2 * tt, dd);
        } else {
            lemma_mul_is_distributive_sub(hs, dd, 2 * tt);
        }
    }
    assert(u * (hs * a1) <= hs * md + hs * u);
    assert(u * a1 <= md + u) by {
        lemma_mul_is_associative(u, hs, a1);
        lemma_mul_is_commutative(u, hs);
        lemma_mul_is_associative(hs, u, a1);
        lemma_mul_is_distributive_add(hs, md, u);
        lemma_mul_inequality_converse(u * a1, md + u, hs);
    }
    // the result and its square
    let r = sqrt_d_spec(a);
    assert(scaled(r.0) + scaled(r.1) == yy + tt);
    let y = yy + tt;
    let g = dist(y * y, n);
    assert(g <= yy * a1 + a2 + a3 + tt * tt) by (nonlinear_arith)
        requires
            g == dist(y * y, n),
            y == yy + tt,
            a1 == dist(2 * tt, dd),
            a2 == dist(dd * yy, rv * p2),
            a3 == dist(rv * p2, vs),
            vs == n - yy * yy,
            yy >= 0,
    ;
    // sizes
    let k = md * yy;
    assert(k <= mr + a2) by (nonlinear_arith)
        requires
            a2 == dist(dd * yy, rv * p2),
            mr == magnitude(rv * p2),
            md == magnitude(dd),
            k == md * yy,
            yy >= 0,
    ;
    assert(mr <= rho + a3);
    let mt = magnitude(tt) as int;
    assert(2 * mt <= md + a1);
    assert(yy * yy <= n + rho);
    assert(yy * yy + rho >= n);
    // 2^562 <= y0, so u^2 y0 is tiny beside n
    lemma_pow2_adds(562, 562);
    lemma_pow2_le(1124, 1126);
    let h562 = pow2(562) as int;
    lemma_pow2_adds(2, 1124);
    assert(4 * (h562 * h562) == hh);
    assert(2 * (yy * yy) >= n);
    assert(yy >= h562) by {
        if yy < h562 {
            assert(yy * yy < h562 * h562) by (nonlinear_arith)
                requires
                    0 <= yy < h562,
            ;
        }
    }
    lemma_pow2_adds(12, 106);
    lemma_pow2_le(118, 562);
    assert(4096 * (u * u) <= yy);
    let sq = yy * yy;
    let ya = yy * a1;
    let pt = mt * mt;
    assert(tt * tt == pt) by {
        lemma_magnitude_mul(tt, tt);
        assert(tt * tt >= 0) by (nonlinear_arith);
    }
    // u^2 y0 is tiny beside n
    assert(4096 * (u * (u * yy)) <= sq) by (nonlinear_arith)
        requires
            4096 * (u * u) <= yy,
            sq == yy * yy,
            u >= 0,
    ;
    // the first-order terms
    assert(u * mr <= u * rho + rho + hh);
    assert(u * k <= u * mr + mr + u * yy);
    assert(u * ya <= k + u * yy) by (nonlinear_arith)
        requires
            u * a1 <= md + u,
            yy >= 0,
            k == md * yy,
            ya == yy * a1,
    ;
    // the square of the correction
    let w = mt * yy;
    assert(2 * (u * w) <= (u + 1) * k + u * yy) by (nonlinear_arith)
        requires
            2 * mt <= md + a1,
            yy >= 0,
            k == md * yy,
            ya == yy * a1,
            w == mt * yy,
            u * ya <= k + u * yy,
            u == 0x20_0000_0000_0000,
    ;
    let q = (u + 1) * k + u * yy;
    assert(1000 * q <= 3010 * n + 1010 * hh);
    assert(pt * sq == w * w) by (nonlinear_arith)
        requires
            w == mt * yy,
            pt == mt * mt,
            sq == yy * yy,
    ;
    assert(4 * (u * u) * (w * w) <= q * q) by (nonlinear_arith)
        requires
            2 * (u * w) <= q,
            0 <= w,
            0 <= u,
    ;
    assert(1000000 * (q * q) <= n * (9060100 * n + 7100300 * hh)) by (nonlinear_arith)
        requires
            1000 * q <= 3010 * n + 1010 * hh,
            0 <= q,
            0 <= hh,
            hh <= n,
    ;
    assert(u * sq >= (u - 3) * n);
    assert(4000000 * (u * u) * (u - 3) * pt <= u * (9060100 * n + 7100300 * hh)) by (nonlinear_arith)
        requires
            4 * (u * u) * (pt * sq) <= q * q,
            1000000 * (q * q) <= n * (9060100 * n + 7100300 * hh),
            u * sq >= (u - 3) * n,
            n > 0,
            0 <= pt,
            u == 0x20_0000_0000_0000,
    ;
    assert(1000000 * (u * u * pt) <= 2266000 * n + 1776000 * hh) by (nonlinear_arith)
        requires
            4000000 * (u * u) * (u - 3) * pt <= u * (9060100 * n + 7100300 * hh),
            u == 0x20_0000_0000_0000,
            0 <= n,
            0 <= hh,
            0 <= pt,
    ;
    // the sum
    assert(u * u * g <= u * (u * ya) + u * u * a2 + u * u * a3 + u * u * pt);
    assert(u * (u * ya) <= u * k + u * (u * yy));
    assert(u * u * g <= 12 * n + 2 * u * hh);
    assert(12 * scaled(a) * p2 == 12 * n) by {
        lemma_mul_is_associative(12, scaled(a), p2);
    }
}

/// The root of a double-double number, `sqrt_q`, is accurate to
/// double-double precision: for a normalized `a` (`|a.lo| <= u |a.hi|`,
/// `u = 2^-53`) with a positive normal leading part, where the root `y0`
/// of `a.hi`, the remainder `a.hi - y0^2` by a fused multiply-add, the
/// remainder plus `a.lo`, `2 y0`, and the quotient `delta` are finite, and
/// the final Fast2Sum finds `delta` no larger than `y0` with a finite sum,
/// the square of the result `y` is within `16 u^2 a.hi` of `a`, plus
/// `2^-1073`; so `y` is within about `8 u^2` of the root.  In units of
/// `2^-2148`: `2^106 |y^2 - (a.hi + a.lo) 2^1074| <= 16 a.hi 2^1074 + 2^1181`.
#[verifier::rlimit(80)]
#[verifier::spinoff_prover]
pub proof fn law_sqrt_q_error(ah: u64, al: u64)
    requires
        crate::arith::is_positive_normal(ah),
        enc_is_finite(al),
        pow2(53) * units(al) <= units(ah),
        enc_is_finite(fsqrt(ah)),
        enc_is_finite(ffma(fneg(fsqrt(ah)), fsqrt(ah), ah)),
        enc_is_finite(fadd(ffma(fneg(fsqrt(ah)), fsqrt(ah), ah), al)),
        enc_is_finite(fadd(fsqrt(ah), fsqrt(ah))),
        enc_is_finite(
            fdiv(fadd(ffma(fneg(fsqrt(ah)), fsqrt(ah), ah), al), fadd(fsqrt(ah), fsqrt(ah))),
        ),
        units(fdiv(fadd(ffma(fneg(fsqrt(ah)), fsqrt(ah), ah), al), fadd(fsqrt(ah), fsqrt(ah))))
            <= units(fsqrt(ah)),
        enc_is_finite(sqrt_q_spec((ah, al)).0),
    ensures
        ({
            let r = sqrt_q_spec((ah, al));
            let y = scaled(r.0) + scaled(r.1);
            pow2(106) * dist(y * y, (scaled(ah) + scaled(al)) * pow2(1074)) <= 16 * scaled(ah)
                * pow2(1074) + pow2(1181)
        }),
{
    lemma2_to64();
    lemma2_to64_rest();
    let u: int = 0x20_0000_0000_0000;
    assert(pow2(53) == u);
    lemma_pow2_adds(53, 53);
    assert(pow2(106) == u * u);
    let p2 = pow2(1074) as int;
    lemma_pow2_pos(1074);
    let hh = pow2(1126) as int;
    lemma_pow2_adds(52, 1074);
    lemma_pow2_adds(53, 1126);
    lemma_pow2_adds(2, 1179);
    assert(pow2(1181) == 4 * u * hh);
    // a.hi is positive and normal: more than 2^52 units
    lemma_power_of_two_units(1);
    assert(enc_parts(false, 1, 0) == 0x0010_0000_0000_0000u64);
    assert(units(ah) > pow2(52)) by {
        lemma_mul_basics(pow2(52) as int);
    }
    assert(!sign_bit(ah));
    assert(!enc_is_zero(ah)) by {
        lemma_units_bounds(ah);
    }
    let n0 = (units(ah) * pow2(1074)) as int;
    assert(n0 >= hh) by {
        lemma_mul_inequality(pow2(52) as int, units(ah) as int, p2);
    }
    // y0: the binary64 root of a.hi
    let y0 = fsqrt(ah);
    law_fsqrt_error(ah);
    let yy = units(y0) as int;
    let rho = dist(yy * yy, n0);
    assert(u * rho <= 3 * n0) by {
        lemma_mul_is_associative(3, units(ah) as int, p2);
    }
    assert(!sign_bit(y0)) by {
        crate::rounding::lemma_round_enc_value(false, 2 * isqrt(n0 as nat * pow2(4600)) + (if isqrt(
            n0 as nat * pow2(4600),
        ) * isqrt(n0 as nat * pow2(4600)) != n0 as nat * pow2(4600) {
            1nat
        } else {
            0nat
        }), -2301);
    }
    assert(yy * yy > 0) by {
        assert(yy * yy >= n0 - rho);
    }
    assert(yy > 0) by {
        if yy == 0 {
            lemma_mul_basics(0);
        }
    }
    assert(scaled(y0) == yy);
    // v = a.hi - y0^2, rounded once
    lemma_fneg_value(y0);
    let v = ffma(fneg(y0), y0, ah);
    lemma_ffma_relative(fneg(y0), y0, ah);
    assert(scaled(fneg(y0)) * scaled(y0) == -(yy * yy)) by {
        lemma_mul_unary_negation(yy, yy);
    }
    assert(scaled(ah) * p2 == n0);
    let vs = n0 - yy * yy;
    let rv = scaled(v);
    let a3 = dist(rv * p2, vs);
    assert(u * a3 <= rho + hh);
    let mrv = magnitude(rv * p2) as int;
    assert(mrv <= rho + a3);
    // w = v + a.lo, rounded
    let w = fadd(v, al);
    lemma_fadd_relative(v, al);
    let a1s = scaled(al);
    let ww = scaled(w);
    let ew = dist(ww, rv + a1s);
    let m1 = magnitude(a1s * p2) as int;
    assert(magnitude(rv + a1s) * p2 <= mrv + m1) by {
        lemma_magnitude_mul(rv, p2);
        lemma_magnitude_mul(a1s, p2);
        lemma_magnitude_mul(rv + a1s, p2);
        lemma_mul_is_distributive_add_other_way(p2, rv, a1s);
    }
    let ewp = ew * p2;
    assert(u * ewp <= mrv + m1) by {
        lemma_mul_inequality(u * ew, magnitude(rv + a1s) as int, p2);
        lemma_mul_is_associative(u, ew, p2);
    }
    assert(u * m1 <= n0) by {
        lemma_magnitude_mul(a1s, p2);
        lemma_mul_inequality(u * units(al), units(ah) as int, p2);
        lemma_mul_is_associative(u, units(al) as int, p2);
    }
    let mw = magnitude(ww * p2) as int;
    assert(mw <= mrv + m1 + ewp) by {
        lemma_magnitude_mul(ww, p2);
        lemma_magnitude_mul(rv + a1s, p2);
        lemma_mul_is_distributive_add_other_way(p2, rv, a1s);
        if ww >= rv + a1s {
            lemma_mul_is_distributive_sub_other_way(p2, ww, rv + a1s);
        } else {
            lemma_mul_is_distributive_sub_other_way(p2, rv + a1s, ww);
        }
    }
    // 2 y0, exactly
    let d2 = fadd(y0, y0);
    lemma_fadd_relative(y0, y0);
    lemma_representable_small(significand(y0), unit_shift(y0) + 1);
    lemma_pow2_adds(unit_shift(y0), 1);
    assert(2 * units(y0) == significand(y0) * pow2(unit_shift(y0) + 1)) by {
        lemma_mul_is_associative(significand(y0) as int, pow2(unit_shift(y0)) as int, 2);
    }
    assert(scaled(d2) == 2 * yy) by {
        assert(fadd(y0, y0) == round_signed(2 * yy, 0, false));
        crate::ops::lemma_round_exact(2 * yy, false);
        lemma_round_enc_value(false, (2 * yy) as nat, 0);
    }
    // delta = w / (2 y0), rounded
    assert(!enc_is_zero(d2)) by {
        lemma_units_bounds(d2);
    }
    let d = fdiv(w, d2);
    lemma_fdiv_relative(w, d2);
    let dd = scaled(d);
    let a2 = dist(dd * (2 * yy), ww * p2);
    assert(u * a2 <= mw + u * (2 * yy)) by {
        lemma_magnitude_mul(ww, p2);
    }
    // the final Fast2Sum is exact
    law_fast_two_sum_exact(y0, d);
    let r = sqrt_q_spec((ah, al));
    assert(scaled(r.0) + scaled(r.1) == yy + dd);
    let y = yy + dd;
    let n = (scaled(ah) + scaled(al)) * p2;
    assert(n == n0 + a1s * p2) by {
        lemma_mul_is_distributive_add_other_way(p2, scaled(ah), a1s);
    }
    let g = dist(y * y, n);
    assert(g <= a2 + ewp + a3 + dd * dd) by (nonlinear_arith)
        requires
            g == dist(y * y, n),
            y == yy + dd,
            n == n0 + a1s * p2,
            a2 == dist(dd * (2 * yy), ww * p2),
            ewp == ew * p2,
            ew == dist(ww, rv + a1s),
            a3 == dist(rv * p2, vs),
            vs == n0 - yy * yy,
            p2 > 0,
    ;
    let md = magnitude(dd) as int;
    let pt = md * md;
    assert(dd * dd == pt) by {
        lemma_magnitude_mul(dd, dd);
        assert(dd * dd >= 0) by (nonlinear_arith);
    }
    let k = md * (2 * yy);
    assert(k <= mw + a2) by (nonlinear_arith)
        requires
            a2 == dist(dd * (2 * yy), ww * p2),
            mw == magnitude(ww * p2),
            md == magnitude(dd),
            k == md * (2 * yy),
            yy >= 0,
    ;
    // y0 is large: 2^562 <= y0, so u^2 y0 is tiny beside n0
    lemma_pow2_adds(562, 562);
    let h562 = pow2(562) as int;
    lemma_pow2_adds(2, 1124);
    assert(4 * (h562 * h562) == hh);
    assert(2 * (yy * yy) >= n0);
    assert(yy >= h562) by {
        if yy < h562 {
            assert(yy * yy < h562 * h562) by (nonlinear_arith)
                requires
                    0 <= yy < h562,
            ;
        }
    }
    lemma_pow2_adds(12, 106);
    lemma_pow2_le(118, 562);
    assert(4096 * (u * u) <= yy);
    let sq = yy * yy;
    assert(4096 * (u * (u * yy)) <= sq) by (nonlinear_arith)
        requires
            4096 * (u * u) <= yy,
            sq == yy * yy,
            u >= 0,
    ;
    assert(sq <= n0 + rho);
    assert(u * sq >= (u - 3) * n0);
    // the first-order terms
    assert(u * mrv <= u * rho + rho + hh);
    let q = u * (mw + a2);
    assert(1000 * q <= 4010 * n0 + 1010 * hh);
    // the square of the correction: 4 y0^2 delta^2 <= (w + a2)^2
    assert(4 * (u * u) * (pt * sq) <= q * q) by (nonlinear_arith)
        requires
            k <= mw + a2,
            k == md * (2 * yy),
            pt == md * md,
            sq == yy * yy,
            q == u * (mw + a2),
            0 <= md,
            0 <= yy,
            u >= 0,
    ;
    assert(1000000 * (q * q) <= n0 * (16080100 * n0 + 9121000 * hh)) by (nonlinear_arith)
        requires
            1000 * q <= 4010 * n0 + 1010 * hh,
            0 <= q,
            0 <= hh,
            hh <= n0,
    ;
    assert(4000000 * (u * u) * (u - 3) * pt <= u * (16080100 * n0 + 9121000 * hh)) by (nonlinear_arith)
        requires
            4 * (u * u) * (pt * sq) <= q * q,
            1000000 * (q * q) <= n0 * (16080100 * n0 + 9121000 * hh),
            u * sq >= (u - 3) * n0,
            n0 > 0,
            0 <= pt,
            u == 0x20_0000_0000_0000,
    ;
    assert(1000000 * (u * u * pt) <= 4021000 * n0 + 2281000 * hh) by (nonlinear_arith)
        requires
            4000000 * (u * u) * (u - 3) * pt <= u * (16080100 * n0 + 9121000 * hh),
            u == 0x20_0000_0000_0000,
            0 <= n0,
            0 <= hh,
            0 <= pt,
    ;
    // the sum
    assert(u * u * g <= 16 * n0 + 4 * u * hh);
    assert(16 * scaled(ah) * p2 == 16 * n0) by {
        lemma_mul_is_associative(16, scaled(ah), p2);
    }
}

// ---------------------------------------------------------------------------
// Reciprocals

/// Fast2Sum without an order on its operands errs by at most `2^-53` of
/// `2 |b| + |a + b|`: `2^53 |(s + t) - (a + b)| <= 2 |b| + |a + b|`, where
/// its three roundings are finite.
pub proof fn lemma_fast_two_sum_error(a: u64, b: u64)
    requires
        enc_is_finite(a),
        enc_is_finite(b),
        enc_is_finite(fadd(a, b)),
        enc_is_finite(fsub(fadd(a, b), a)),
        enc_is_finite(fast_two_sum(a, b).1),
    ensures
        pow2(53) * dist(
            scaled(fast_two_sum(a, b).0) + scaled(fast_two_sum(a, b).1),
            scaled(a) + scaled(b),
        ) <= 2 * magnitude(scaled(b)) + magnitude(scaled(a) + scaled(b)),
{
    lemma2_to64();
    lemma2_to64_rest();
    let u: int = 0x20_0000_0000_0000;
    assert(pow2(53) == u);
    let s = fadd(a, b);
    let z = fsub(s, a);
    let t = fsub(b, z);
    lemma_fadd_relative(a, b);
    lemma_fneg_value(a);
    lemma_fadd_relative(s, fneg(a));
    lemma_fneg_value(z);
    lemma_fadd_relative(b, fneg(z));
    let aa = scaled(a);
    let bb = scaled(b);
    let ss = scaled(s);
    let zz = scaled(z);
    let tt = scaled(t);
    assert(u * dist(ss, aa + bb) <= magnitude(aa + bb));
    assert(u * dist(zz, ss - aa) <= magnitude(ss - aa));
    assert(u * dist(tt, bb - zz) <= magnitude(bb - zz));
}

/// The steps of `reciprocal_q` on `y` stay finite, and the Fast2Sums of
/// its product and of its final sum find their operands ordered.
pub open spec fn reciprocal_q_steps_ok(yh: u64, yl: u64) -> bool {
    let th = fdiv(one(), yh);
    let rh = ffma(fneg(yh), th, one());
    let rl = fmul(fneg(yl), th);
    let e = fast_two_sum(rh, rl);
    let c = two_prod(e.0, th);
    let cl = ffma(e.1, th, c.1);
    let d = fast_two_sum(c.0, cl);
    let s = fast_two_sum(th, d.0);
    let v = fadd(d.1, s.1);
    &&& enc_is_finite(th)
    &&& enc_is_finite(rh)
    &&& enc_is_finite(rl)
    &&& enc_is_finite(e.0)
    &&& enc_is_finite(fsub(e.0, rh))
    &&& enc_is_finite(e.1)
    &&& enc_is_finite(c.0)
    &&& enc_is_finite(c.1)
    &&& enc_is_finite(cl)
    &&& units(cl) <= units(c.0)
    &&& enc_is_finite(d.0)
    &&& units(d.0) <= units(th)
    &&& enc_is_finite(s.0)
    &&& enc_is_finite(v)
    &&& units(v) <= units(s.0)
    &&& enc_is_finite(fast_two_sum(s.0, v).0)
}

/// The first steps of `reciprocal_q`, on integers: from the roundings of
/// `th = 1 / y.hi`, `rh = 1 - y.hi th` and `rl = -y.lo th` and the sum `e`
/// of `rh` and `rl`, with `n = 2^2148` the unit and `eps = 2^-48 n`, the
/// residual `x = e - (1 - th y)` is of the order of `u^2`, and `th y` is
/// within `2 u` of one.
#[verifier::rlimit(60)]
#[verifier::spinoff_prover]
proof fn lemma_recip_first(
    p: int,
    n: int,
    hh: int,
    eps: int,
    t: int,
    y0: int,
    y1: int,
    rr: int,
    ll: int,
    e0: int,
    e1: int,
)
    requires
        p > 0,
        n == p * p,
        n == 0x1_0000_0000_0000 * eps,
        0 <= hh,
        0x20_0000_0000_0000 * hh <= eps,
        0x20_0000_0000_0000 * magnitude(y0) <= eps,
        0x20_0000_0000_0000 * magnitude(y1) <= magnitude(y0),
        0x20_0000_0000_0000 * dist(t * y0, n) <= n + 0x20_0000_0000_0000 * magnitude(y0),
        0x20_0000_0000_0000 * dist(rr * p, n - t * y0) <= magnitude(n - t * y0) + hh,
        0x20_0000_0000_0000 * dist(ll * p, -(t * y1)) <= magnitude(t * y1) + hh,
        0x20_0000_0000_0000 * dist(e0 + e1, rr + ll) <= 2 * magnitude(ll) + magnitude(rr + ll),
        0x20_0000_0000_0000 * dist(e0, rr + ll) <= magnitude(rr + ll),
    ensures
        magnitude(t) * magnitude(y0 + y1) <= n + 2 * eps,
        0x20_0000_0000_0000 * dist(n, t * (y0 + y1)) <= 2 * n + 2 * eps,
        0x20_0000_0000_0000 * 0x20_0000_0000_0000 * magnitude((e0 + e1) * p - (n - t * (y0 + y1))) <= 6 * n + 16 * eps,
        0x20_0000_0000_0000 * (magnitude(e0) * p) <= 5 * n,
        0x20_0000_0000_0000 * 0x20_0000_0000_0000 * (magnitude(e1) * p) <= 7 * n,
{
    let u: int = 0x20_0000_0000_0000;
    let my0 = magnitude(y0) as int;
    let my1 = magnitude(y1) as int;
    let mt = magnitude(t) as int;
    let a0 = dist(t * y0, n);
    let ty0 = magnitude(t * y0) as int;
    let ty1 = magnitude(t * y1) as int;
    assert(ty0 <= n + a0);
    assert(u * ty1 <= ty0) by {
        lemma_magnitude_mul(t, y0);
        lemma_magnitude_mul(t, y1);
        lemma_mul_inequality(u * my1, my0, mt);
        lemma_mul_is_associative(u, my1, mt);
        lemma_mul_is_commutative(my1, mt);
        lemma_mul_is_commutative(my0, mt);
    }
    let y = y0 + y1;
    let z = t * y;
    assert(z == t * y0 + t * y1) by {
        lemma_mul_is_distributive_add(t, y0, y1);
    }
    assert(mt * magnitude(y) == magnitude(z)) by {
        lemma_magnitude_mul(t, y);
    }
    let f_b = rr * p - (n - t * y0);
    let f_c = ll * p + t * y1;
    assert(magnitude(-(t * y1)) == ty1);
    assert(u * magnitude(f_b) <= a0 + hh);
    assert(u * magnitude(f_c) <= ty1 + hh);
    let rhp = magnitude(rr) * p;
    let rlp = magnitude(ll) * p;
    assert(rhp <= a0 + magnitude(f_b)) by {
        lemma_magnitude_mul(rr, p);
    }
    assert(rlp <= ty1 + magnitude(f_c)) by {
        lemma_magnitude_mul(ll, p);
    }
    assert((rr + ll) * p == n - z + f_b + f_c) by {
        lemma_mul_is_distributive_add_other_way(p, rr, ll);
    }
    let es = e0 + e1;
    let g_e = es - (rr + ll);
    let mge = magnitude(g_e) as int;
    let msum = magnitude(rr + ll) as int;
    let mll = magnitude(ll) as int;
    let mrr = magnitude(rr) as int;
    assert(u * mge <= 2 * mll + msum);
    assert(msum <= mrr + mll);
    let x = f_b + f_c + g_e * p;
    assert(es * p - (n - z) == x) by {
        lemma_mul_is_distributive_add_other_way(p, rr + ll, g_e);
    }
    let mgep = mge * p;
    assert(u * mgep <= rhp + 3 * rlp) by {
        lemma_mul_inequality(u * mge, mrr + 3 * mll, p);
        lemma_mul_is_associative(u, mge, p);
        lemma_mul_is_distributive_add_other_way(p, mrr, 3 * mll);
        lemma_mul_is_associative(3, mll, p);
    }
    assert(magnitude(g_e * p) == mgep) by {
        lemma_magnitude_mul(g_e, p);
    }
    // |e0| <= 2 |rr + ll| and |e1| <= |g_e| + |rr + ll| / u
    let de = dist(e0, rr + ll);
    assert(magnitude(e0) <= msum + de);
    assert(magnitude(e1) <= mge + de);
    let sp = msum * p;
    assert(sp <= rhp + rlp) by {
        lemma_mul_inequality(msum, mrr + mll, p);
        lemma_mul_is_distributive_add_other_way(p, mrr, mll);
    }
    let dep = de * p;
    assert(u * dep <= sp) by {
        lemma_mul_inequality(u * de, msum, p);
        lemma_mul_is_associative(u, de, p);
    }
    assert(magnitude(e0) * p <= sp + dep) by {
        lemma_mul_inequality(magnitude(e0) as int, msum + de, p);
        lemma_mul_is_distributive_add_other_way(p, msum, de);
    }
    assert(magnitude(e1) * p <= mgep + dep) by {
        lemma_mul_inequality(magnitude(e1) as int, mge + de, p);
        lemma_mul_is_distributive_add_other_way(p, mge, de);
    }
    assert(a0 <= eps);
    assert(ty1 <= eps);
    assert(u * u * magnitude(f_b) <= n + 2 * eps);
    assert(u * u * magnitude(f_c) <= n + 2 * eps);
    assert(u * rhp <= n + 3 * eps);
    assert(u * rlp <= n + 3 * eps);
    assert(u * u * mgep <= 4 * n + 12 * eps);
    assert(magnitude(x) <= magnitude(f_b) + magnitude(f_c) + mgep);
    assert(u * u * magnitude(x) <= 6 * n + 16 * eps);
    assert(u * u * dep <= 2 * n + 6 * eps);
}

/// The product `delta = e th` in `reciprocal_q`, on integers: from its
/// three roundings (the product, its error term and the low-order term)
/// and the exact Fast2Sum, `delta p - e th` is of the order of
/// `u^2 |e.hi th| + u |e.lo th|`.
#[verifier::rlimit(40)]
#[verifier::spinoff_prover]
proof fn lemma_recip_product(
    p: int,
    hh: int,
    t: int,
    e0: int,
    e1: int,
    c0: int,
    c1: int,
    cl: int,
    d0: int,
    d1: int,
)
    requires
        p > 0,
        0 <= hh,
        0x20_0000_0000_0000 * dist(c0 * p, e0 * t) <= magnitude(e0 * t) + hh,
        0x20_0000_0000_0000 * dist(c1 * p, e0 * t - c0 * p) <= magnitude(e0 * t - c0 * p) + hh,
        0x20_0000_0000_0000 * dist(cl * p, e1 * t + c1 * p) <= magnitude(e1 * t + c1 * p) + hh,
        d0 + d1 == c0 + cl,
    ensures
        0x20_0000_0000_0000 * 0x20_0000_0000_0000 * magnitude((d0 + d1) * p - (e0 + e1) * t) <= 3
            * magnitude(e0 * t) + 0x20_0000_0000_0000 * magnitude(e1 * t) + 3 * 0x20_0000_0000_0000
            * hh,
{
    let u: int = 0x20_0000_0000_0000;
    let m1 = c1 * p - (e0 * t - c0 * p);
    let m2 = cl * p - (e1 * t + c1 * p);
    assert((d0 + d1) * p - (e0 + e1) * t == m1 + m2) by {
        lemma_mul_is_distributive_add_other_way(p, c0, cl);
        lemma_mul_is_distributive_add_other_way(t, e0, e1);
    }
    let k = magnitude(e0 * t - c0 * p) as int;
    assert(u * k <= magnitude(e0 * t) + hh);
    assert(u * magnitude(m1) <= k + hh);
    assert(magnitude(c1 * p) <= k + magnitude(m1));
    assert(u * magnitude(m2) <= magnitude(e1 * t) + magnitude(c1 * p) + hh);
    let me0 = magnitude(e0 * t) as int;
    let me1 = magnitude(e1 * t) as int;
    let a1 = magnitude(m1) as int;
    let a2 = magnitude(m2) as int;
    assert(magnitude(m1 + m2) <= a1 + a2);
    assert(u * u * a1 <= u * k + u * hh);
    assert(u * u * a2 <= u * me1 + u * k + u * a1 + u * hh);
    assert(u * u * a1 + u * u * a2 <= 2 * (u * k) + u * a1 + u * me1 + 2 * u * hh);
    assert(2 * (u * k) + u * a1 <= 3 * me0 + 4 * hh);
    assert(u * u * magnitude(m1 + m2) <= 3 * me0 + u * me1 + 3 * u * hh);
}

/// The final sum `th + delta` in `reciprocal_q`, on integers: where
/// `|delta.hi| <= |th|` and both Fast2Sums are exact, the sum errs by at
/// most `4 u^2 |th|`.
#[verifier::rlimit(40)]
#[verifier::spinoff_prover]
proof fn lemma_recip_sum(
    t: int,
    c0: int,
    cl: int,
    d0: int,
    d1: int,
    s0: int,
    s1: int,
    v: int,
    r: int,
)
    requires
        d0 + d1 == c0 + cl,
        0x20_0000_0000_0000 * dist(d0, c0 + cl) <= magnitude(c0 + cl),
        magnitude(d0) <= magnitude(t),
        s0 + s1 == t + d0,
        0x20_0000_0000_0000 * dist(s0, t + d0) <= magnitude(t + d0),
        0x20_0000_0000_0000 * dist(v, d1 + s1) <= magnitude(d1 + s1),
        r == s0 + v,
    ensures
        0x20_0000_0000_0000 * 0x20_0000_0000_0000 * magnitude(r - (t + (d0 + d1))) <= 4 * magnitude(t),
{
    let u: int = 0x20_0000_0000_0000;
    assert(magnitude(d1) == dist(d0, c0 + cl));
    assert(magnitude(s1) == dist(s0, t + d0));
    assert(u * magnitude(d1) <= magnitude(d0) + magnitude(d1));
    assert(u * magnitude(s1) <= 2 * magnitude(t));
    assert(r - (t + (d0 + d1)) == v - (d1 + s1));
    let g = magnitude(r - (t + (d0 + d1))) as int;
    assert(u * g <= magnitude(d1) + magnitude(s1));
    assert(u * magnitude(d1) <= 2 * magnitude(t));
    assert(u * u * g <= u * magnitude(d1) + u * magnitude(s1));
}

/// The residual of `reciprocal_q` as a sum of its parts: where
/// `r = t + d + ga`, `d p = es t + gm` and `es p = n - z + x`, with `z = t y`
/// and `n = p^2`, `(r y - n) n = ga y n - (n - z)^2 + x z + gm y p`.
proof fn lemma_recip_identity(p: int, n: int, t: int, y: int, es: int, d: int, r: int)
    requires
        n == p * p,
    ensures
        (r * y - n) * n == (r - (t + d)) * y * n - (n - t * y) * (n - t * y) + (es * p - (n - t * y))
            * (t * y) + (d * p - es * t) * y * p,
{
    let z = t * y;
    assert(r * y * n == t * y * n + d * y * n + (r - (t + d)) * y * n) by (nonlinear_arith);
    assert((d * p - es * t) * y * p == d * p * y * p - es * t * y * p) by (nonlinear_arith);
    assert(d * p * y * p == d * y * (p * p)) by (nonlinear_arith);
    assert(es * t * y * p == es * p * (t * y)) by (nonlinear_arith);
    assert(d * y * n == (d * p - es * t) * y * p + es * p * z);
    assert((r * y - n) * n == r * y * n - n * n) by (nonlinear_arith);
    assert(es * p * z == (es * p - (n - z)) * z + (n - z) * z) by (nonlinear_arith);
    assert(t * y * n == z * n);
    assert(z * n + (n - z) * z - n * n == -((n - z) * (n - z))) by (nonlinear_arith);
}

/// The error of `reciprocal_q`, on integers: the bounds of its stages
/// combine into `u^2 |r y - 1| <= 16 u^2`, with `n = 2^2148` the unit.
/// The residual `r y - 1` is `-(1 - th y)^2` plus the errors of the
/// stages, each of the order of `u^2`.
#[verifier::rlimit(60)]
#[verifier::spinoff_prover]
proof fn lemma_recip_combine(
    p: int,
    n: int,
    hh: int,
    eps: int,
    k: int,
    t: int,
    y0: int,
    y1: int,
    e0: int,
    e1: int,
    d: int,
    r: int,
)
    requires
        p > 0,
        n == p * p,
        n == 0x1_0000_0000_0000 * eps,
        0 <= hh,
        0 <= k,
        magnitude(y0) <= k,
        magnitude(y1) <= magnitude(y0),
        512 * ((0x20_0000_0000_0000 * hh) * (k * p)) <= n * n,
        magnitude(t) * magnitude(y0 + y1) <= n + 2 * eps,
        0x20_0000_0000_0000 * dist(n, t * (y0 + y1)) <= 2 * n + 2 * eps,
        0x20_0000_0000_0000 * 0x20_0000_0000_0000 * magnitude((e0 + e1) * p - (n - t * (y0 + y1)))
            <= 6 * n + 16 * eps,
        0x20_0000_0000_0000 * (magnitude(e0) * p) <= 5 * n,
        0x20_0000_0000_0000 * 0x20_0000_0000_0000 * (magnitude(e1) * p) <= 7 * n,
        0x20_0000_0000_0000 * 0x20_0000_0000_0000 * magnitude(d * p - (e0 + e1) * t) <= 3
            * magnitude(e0 * t) + 0x20_0000_0000_0000 * magnitude(e1 * t) + 3 * 0x20_0000_0000_0000
            * hh,
        0x20_0000_0000_0000 * 0x20_0000_0000_0000 * magnitude(r - (t + d)) <= 4 * magnitude(t),
    ensures
        0x20_0000_0000_0000 * 0x20_0000_0000_0000 * dist(r * (y0 + y1), n) <= 16 * n,
{
    let u: int = 0x20_0000_0000_0000;
    let y = y0 + y1;
    let z = t * y;
    let es = e0 + e1;
    let x = es * p - (n - z);
    let gm = d * p - es * t;
    let ga = r - (t + d);
    let w = n - z;
    let g = (r * y - n) * n;
    lemma_recip_identity(p, n, t, y, es, d, r);
    assert(g == ga * y * n - w * w + x * z + gm * y * p);
    let mt = magnitude(t) as int;
    let my = magnitude(y) as int;
    let tyb = n + 2 * eps;
    let n2 = n * n;
    let ne = n * eps;
    let ee = eps * eps;
    assert(n2 == 0x1_0000_0000_0000 * ne) by {
        lemma_mul_is_associative(0x1_0000_0000_0000, eps, n);
        lemma_mul_is_commutative(eps, n);
    }
    assert(ne == 0x1_0000_0000_0000 * ee) by {
        lemma_mul_is_associative(0x1_0000_0000_0000, eps, eps);
    }
    assert(tyb * n == n2 + 2 * ne) by (nonlinear_arith)
        requires
            tyb == n + 2 * eps,
            n2 == n * n,
            ne == n * eps,
    ;
    // the sum term
    let mga = magnitude(ga) as int;
    assert(magnitude(ga * y * n) == mga * my * n) by {
        lemma_magnitude_mul(ga * y, n);
        lemma_magnitude_mul(ga, y);
    }
    let b1 = mga * my * n;
    assert(u * u * b1 <= 4 * (tyb * n)) by (nonlinear_arith)
        requires
            u * u * mga <= 4 * mt,
            mt * my <= tyb,
            b1 == mga * my * n,
            0 <= mga,
            0 <= my,
            0 <= mt,
            0 <= n,
    ;
    // the square term
    let mw = magnitude(w) as int;
    let b2 = mw * mw;
    assert(w * w == b2) by (nonlinear_arith)
        requires
            mw == w || mw == -w,
            b2 == mw * mw,
    ;
    assert(u * u * b2 <= (2 * n + 2 * eps) * (2 * n + 2 * eps)) by (nonlinear_arith)
        requires
            u * mw <= 2 * n + 2 * eps,
            b2 == mw * mw,
            0 <= mw,
            0 <= u,
    ;
    assert((2 * n + 2 * eps) * (2 * n + 2 * eps) == 4 * n2 + 8 * ne + 4 * ee) by (nonlinear_arith)
        requires
            n2 == n * n,
            ne == n * eps,
            ee == eps * eps,
    ;
    // the residual term
    let mx = magnitude(x) as int;
    let mz = magnitude(z) as int;
    assert(mz == mt * my) by {
        lemma_magnitude_mul(t, y);
    }
    let b3 = mx * mz;
    assert(magnitude(x * z) == b3) by {
        lemma_magnitude_mul(x, z);
    }
    assert(u * u * b3 <= (6 * n + 16 * eps) * tyb) by (nonlinear_arith)
        requires
            u * u * mx <= 6 * n + 16 * eps,
            mz <= tyb,
            b3 == mx * mz,
            0 <= mx,
            0 <= mz,
    ;
    assert((6 * n + 16 * eps) * tyb == 6 * n2 + 28 * ne + 32 * ee) by (nonlinear_arith)
        requires
            tyb == n + 2 * eps,
            n2 == n * n,
            ne == n * eps,
            ee == eps * eps,
    ;
    // the product term
    let mgm = magnitude(gm) as int;
    let b4 = mgm * (my * p);
    assert(magnitude(gm * y * p) == b4) by {
        lemma_magnitude_mul(gm * y, p);
        lemma_magnitude_mul(gm, y);
        lemma_mul_is_associative(mgm, my, p);
    }
    let me0 = magnitude(e0) as int;
    let me1 = magnitude(e1) as int;
    assert(magnitude(e0 * t) == me0 * mt) by {
        lemma_magnitude_mul(e0, t);
    }
    assert(magnitude(e1 * t) == me1 * mt) by {
        lemma_magnitude_mul(e1, t);
    }
    let myp = my * p;
    let c0 = me0 * mt * myp;
    let c1 = me1 * mt * myp;
    let c2 = hh * myp;
    assert(u * u * b4 <= 3 * c0 + u * c1 + 3 * u * c2) by (nonlinear_arith)
        requires
            u * u * mgm <= 3 * (me0 * mt) + u * (me1 * mt) + 3 * u * hh,
            b4 == mgm * myp,
            c0 == me0 * mt * myp,
            c1 == me1 * mt * myp,
            c2 == hh * myp,
            0 <= myp,
    ;
    assert(c0 == (me0 * p) * (mt * my)) by (nonlinear_arith)
        requires
            c0 == me0 * mt * (my * p),
    ;
    assert(u * c0 <= 5 * (n * tyb)) by {
        assert(0 <= me0 * p) by (nonlinear_arith)
            requires
                0 <= me0,
                0 <= p,
        ;
        assert(0 <= mt * my) by (nonlinear_arith)
            requires
                0 <= mt,
                0 <= my,
        ;
        lemma_mul_upper_bound(u * (me0 * p), 5 * n, mt * my, tyb);
        lemma_mul_is_associative(u, me0 * p, mt * my);
        lemma_mul_is_associative(5, n, tyb);
    }
    assert(u * u * c1 <= 7 * (n * tyb)) by (nonlinear_arith)
        requires
            u * u * (me1 * p) <= 7 * n,
            mt * my <= tyb,
            c1 == me1 * mt * (my * p),
            0 <= me1,
            0 <= mt,
            0 <= my,
            0 <= p,
    ;
    let q = (u * hh) * (k * p);
    assert(my <= 2 * k);
    assert(u * c2 <= 2 * q) by (nonlinear_arith)
        requires
            my <= 2 * k,
            c2 == hh * (my * p),
            q == (u * hh) * (k * p),
            0 <= hh,
            0 <= p,
            0 <= u,
    ;
    assert(n * tyb == n2 + 2 * ne) by (nonlinear_arith)
        requires
            tyb == n + 2 * eps,
            n2 == n * n,
            ne == n * eps,
    ;
    // altogether
    assert(magnitude(g) <= b1 + b2 + b3 + b4);
    assert(u * u * magnitude(g) <= 16 * n2);
    let dd = dist(r * y, n);
    assert(magnitude(g) == dd * n) by {
        lemma_magnitude_mul(r * y - n, n);
    }
    assert(n > 0) by (nonlinear_arith)
        requires
            n == p * p,
            p > 0,
    ;
    assert((u * u * dd) * n <= (16 * n) * n) by {
        lemma_mul_is_associative(u * u, dd, n);
        lemma_mul_is_associative(16, n, n);
    }
    lemma_mul_inequality_converse(u * u * dd, 16 * n, n);
}

/// The reciprocal of a double-double number, `reciprocal_q`, is accurate
/// to double-double precision: for a normalized `y` (`|y.lo| <= u |y.hi|`,
/// `u = 2^-53`) with `0 < |y.hi| <= 2^960`, where its steps stay finite and
/// the Fast2Sums of its product and of its final sum find their operands
/// ordered, the result `r` satisfies `|r y - 1| <= 16 u^2`, and comes out
/// normalized (`|r.lo| <= u |r.hi|`).  In units of `2^-2148`:
/// `2^106 |(r.hi + r.lo)(y.hi + y.lo) - 2^2148| <= 16 2^2148`.
#[verifier::rlimit(100)]
#[verifier::spinoff_prover]
pub proof fn law_reciprocal_q_error(yh: u64, yl: u64)
    requires
        enc_is_finite(yh),
        enc_is_finite(yl),
        !enc_is_zero(yh),
        pow2(53) * units(yl) <= units(yh),
        units(yh) <= pow2(2034),
        reciprocal_q_steps_ok(yh, yl),
    ensures
        ({
            let r = reciprocal_q_spec((yh, yl));
            pow2(106) * dist(
                (scaled(r.0) + scaled(r.1)) * (scaled(yh) + scaled(yl)),
                pow2(2148) as int,
            ) <= 16 * pow2(2148)
        }),
        enc_is_finite(reciprocal_q_spec((yh, yl)).1),
        pow2(53) * units(reciprocal_q_spec((yh, yl)).1) <= units(reciprocal_q_spec((yh, yl)).0),
{
    lemma2_to64();
    lemma2_to64_rest();
    let u: int = 0x20_0000_0000_0000;
    assert(pow2(53) == u);
    lemma_pow2_adds(53, 53);
    let p = pow2(1074) as int;
    lemma_pow2_pos(1074);
    let n = pow2(2148) as int;
    lemma_pow2_adds(1074, 1074);
    let hh = pow2(1126) as int;
    let eps = pow2(2100) as int;
    lemma_pow2_adds(48, 2100);
    lemma_pow2_adds(53, 1126);
    lemma_pow2_le(1179, 2100);
    let kk = pow2(2034) as int;
    lemma_pow2_adds(53, 2034);
    lemma_pow2_le(2087, 2100);
    lemma_pow2_adds(2034, 1074);
    lemma_pow2_adds(1179, 3108);
    lemma_pow2_adds(9, 4287);
    lemma_pow2_adds(2148, 2148);
    assert(512 * ((u * hh) * (kk * p)) <= n * n);
    // 1 is 2^1074 units
    lemma_power_of_two_units(1023);
    assert(enc_parts(false, 1023, 0) == 0x3ff0_0000_0000_0000u64);
    lemma_pow2_adds(52, 1022);
    assert(scaled(one()) == p);
    let y0 = scaled(yh);
    let y1 = scaled(yl);
    // th = 1 / y.hi, rh = 1 - y.hi th and rl = -y.lo th, each rounded once
    let th = fdiv(one(), yh);
    let t = scaled(th);
    lemma_fdiv_relative(one(), yh);
    let rh = ffma(fneg(yh), th, one());
    lemma_fneg_value(yh);
    lemma_ffma_relative(fneg(yh), th, one());
    assert(scaled(fneg(yh)) * t + p * p == n - t * y0) by {
        lemma_mul_unary_negation(y0, t);
        lemma_mul_is_commutative(y0, t);
    }
    let rl = fmul(fneg(yl), th);
    lemma_fneg_value(yl);
    lemma_fmul_relative(fneg(yl), th);
    assert(scaled(fneg(yl)) * t == -(t * y1)) by {
        lemma_mul_unary_negation(y1, t);
        lemma_mul_is_commutative(y1, t);
    }
    // e = rh + rl by Fast2Sum, in either order
    let e = fast_two_sum(rh, rl);
    lemma_fast_two_sum_error(rh, rl);
    lemma_fadd_relative(rh, rl);
    let e0 = scaled(e.0);
    let e1 = scaled(e.1);
    lemma_recip_first(p, n, hh, eps, t, y0, y1, scaled(rh), scaled(rl), e0, e1);
    // delta = e th
    let c = two_prod(e.0, th);
    lemma_fmul_relative(e.0, th);
    lemma_fneg_value(c.0);
    lemma_ffma_relative(e.0, th, fneg(c.0));
    assert(scaled(fneg(c.0)) * p == -(scaled(c.0) * p)) by {
        lemma_mul_unary_negation(scaled(c.0), p);
    }
    let cl = ffma(e.1, th, c.1);
    lemma_ffma_relative(e.1, th, c.1);
    let d = fast_two_sum(c.0, cl);
    law_fast_two_sum_exact(c.0, cl);
    lemma_fadd_relative(c.0, cl);
    let d0 = scaled(d.0);
    let d1 = scaled(d.1);
    lemma_recip_product(p, hh, t, e0, e1, scaled(c.0), scaled(c.1), scaled(cl), d0, d1);
    // r = th + delta
    let s = fast_two_sum(th, d.0);
    law_fast_two_sum_exact(th, d.0);
    lemma_fadd_relative(th, d.0);
    let v = fadd(d.1, s.1);
    lemma_fadd_relative(d.1, s.1);
    let rr = fast_two_sum(s.0, v);
    law_fast_two_sum_exact(s.0, v);
    law_fast_two_sum_tail_small(s.0, v);
    let r = scaled(rr.0) + scaled(rr.1);
    lemma_recip_sum(t, scaled(c.0), scaled(cl), d0, d1, scaled(s.0), scaled(s.1), scaled(v), r);
    lemma_recip_combine(p, n, hh, eps, kk, t, y0, y1, e0, e1, d0 + d1, r);
    assert(reciprocal_q_spec((yh, yl)) == rr);
}

/// The steps of `mul_qq` on `x` and `y` stay finite, the product of the
/// leading parts leaves an exact error term, and the final Fast2Sum finds
/// its operands ordered.
pub open spec fn mul_qq_steps_ok(xh: u64, xl: u64, yh: u64, yl: u64) -> bool {
    let c = two_prod(xh, yh);
    let tl0 = fmul(xl, yl);
    let tl1 = ffma(xh, yl, tl0);
    let cl2 = ffma(xl, yh, tl1);
    let cl3 = fadd(c.1, cl2);
    &&& unit_shift(xh) + unit_shift(yh) >= 1074
    &&& enc_is_finite(c.0)
    &&& enc_is_finite(tl0)
    &&& enc_is_finite(tl1)
    &&& enc_is_finite(cl2)
    &&& enc_is_finite(cl3)
    &&& units(cl3) <= units(c.0)
    &&& enc_is_finite(fast_two_sum(c.0, cl3).0)
}

/// The quotient of two double-double numbers, `div_qq`, the product of
/// `x` and the reciprocal `q` of `y`, errs by at most `24 u^2` of
/// `|x.hi|` (`u = 2^-53`), plus `2^-1073 |y|`:
/// `|r y - x| <= 24 u^2 |x.hi| + 2^-1073 |y|`.  This holds where the
/// reciprocal is accurate (see `law_reciprocal_q_error`), `x` is
/// normalized, and the product is accurate (see
/// `law_mul_qq_error`).  In units, with `r` the result:
/// `2^106 |(r.hi + r.lo)(y.hi + y.lo) - (x.hi + x.lo) 2^1074| <= 24 |x.hi| 2^1074 + 2^107 |y.hi + y.lo|`.
#[verifier::rlimit(100)]
#[verifier::spinoff_prover]
pub proof fn law_div_qq_error(xh: u64, xl: u64, yh: u64, yl: u64)
    requires
        enc_is_finite(xh),
        enc_is_finite(xl),
        enc_is_finite(yh),
        enc_is_finite(yl),
        !enc_is_zero(yh),
        pow2(53) * units(xl) <= units(xh),
        pow2(53) * units(yl) <= units(yh),
        units(yh) <= pow2(2034),
        reciprocal_q_steps_ok(yh, yl),
        mul_qq_steps_ok(reciprocal_q_spec((yh, yl)).0, reciprocal_q_spec((yh, yl)).1, xh, xl),
        enc_is_finite(mul_qq_spec(reciprocal_q_spec((yh, yl)), (xh, xl)).0),
    ensures
        ({
            let r = mul_qq_spec(reciprocal_q_spec((yh, yl)), (xh, xl));
            pow2(106) * dist(
                (scaled(r.0) + scaled(r.1)) * (scaled(yh) + scaled(yl)),
                (scaled(xh) + scaled(xl)) * pow2(1074),
            ) <= 24 * magnitude(scaled(xh)) * pow2(1074) + pow2(107) * magnitude(
                scaled(yh) + scaled(yl),
            )
        }),
{
    let q = reciprocal_q_spec((yh, yl));
    law_reciprocal_q_error(yh, yl);
    lemma_div_by_reciprocal(xh, xl, yh, yl, q.0, q.1);
}

/// `law_div_qq_error` for a reciprocal `q` of `y` that is within `16 u^2`.
#[verifier::rlimit(100)]
#[verifier::spinoff_prover]
proof fn lemma_div_by_reciprocal(xh: u64, xl: u64, yh: u64, yl: u64, qh: u64, ql: u64)
    requires
        enc_is_finite(xh),
        enc_is_finite(xl),
        enc_is_finite(qh),
        enc_is_finite(ql),
        pow2(53) * units(xl) <= units(xh),
        pow2(53) * units(ql) <= units(qh),
        mul_qq_steps_ok(qh, ql, xh, xl),
        enc_is_finite(mul_qq_spec((qh, ql), (xh, xl)).0),
        pow2(106) * dist(
            (scaled(qh) + scaled(ql)) * (scaled(yh) + scaled(yl)),
            pow2(2148) as int,
        ) <= 16 * pow2(2148),
    ensures
        ({
            let r = mul_qq_spec((qh, ql), (xh, xl));
            pow2(106) * dist(
                (scaled(r.0) + scaled(r.1)) * (scaled(yh) + scaled(yl)),
                (scaled(xh) + scaled(xl)) * pow2(1074),
            ) <= 24 * magnitude(scaled(xh)) * pow2(1074) + pow2(107) * magnitude(
                scaled(yh) + scaled(yl),
            )
        }),
{
    lemma_mul_qq_error_steps(qh, ql, xh, xl);
    lemma2_to64();
    lemma2_to64_rest();
    assert(pow2(53) == 0x20_0000_0000_0000);
    assert(magnitude(scaled(ql)) == units(ql) && magnitude(scaled(qh)) == units(qh));
    assert(magnitude(scaled(xl)) == units(xl) && magnitude(scaled(xh)) == units(xh));
    let r = mul_qq_spec((qh, ql), (xh, xl));
    lemma_div_combine(
        pow2(1074) as int,
        scaled(qh),
        scaled(ql),
        scaled(xh),
        scaled(xl),
        scaled(yh) + scaled(yl),
        scaled(r.0) + scaled(r.1),
    );
}

/// `law_mul_qq_error`, with its conditions on the steps gathered.
proof fn lemma_mul_qq_error_steps(xh: u64, xl: u64, yh: u64, yl: u64)
    requires
        enc_is_finite(xh),
        enc_is_finite(xl),
        enc_is_finite(yh),
        enc_is_finite(yl),
        pow2(53) * units(xl) <= units(xh),
        pow2(53) * units(yl) <= units(yh),
        mul_qq_steps_ok(xh, xl, yh, yl),
        enc_is_finite(mul_qq_spec((xh, xl), (yh, yl)).0),
    ensures
        ({
            let r = mul_qq_spec((xh, xl), (yh, yl));
            pow2(106) * magnitude(
                (scaled(r.0) + scaled(r.1)) * pow2(1074) - (scaled(xh) + scaled(xl)) * (scaled(yh)
                    + scaled(yl)),
            ) <= 7 * magnitude(scaled(xh) * scaled(yh)) + pow2(1181)
        }),
{
    law_mul_qq_error(xh, xl, yh, yl);
}

/// A product by a reciprocal, on integers: where `q y` is within `16 u^2`
/// of one (`n = p^2`) and `r` within `7 u^2 |q.hi x.hi|` of `q x`, `r y` is
/// within `24 u^2 |x.hi|` of `x`, plus `2^107 |y|` units.
#[verifier::rlimit(60)]
#[verifier::spinoff_prover]
proof fn lemma_div_combine(p: int, q0: int, q1: int, x0: int, x1: int, y: int, r: int)
    requires
        p == pow2(1074),
        0x20_0000_0000_0000 * magnitude(q1) <= magnitude(q0),
        0x20_0000_0000_0000 * magnitude(x1) <= magnitude(x0),
        pow2(106) * dist((q0 + q1) * y, pow2(2148) as int) <= 16 * pow2(2148),
        pow2(106) * magnitude(r * p - (q0 + q1) * (x0 + x1)) <= 7 * magnitude(q0 * x0) + pow2(1181),
    ensures
        pow2(106) * dist(r * y, (x0 + x1) * p) <= 24 * magnitude(x0) * p + pow2(107) * magnitude(y),
{
    lemma2_to64();
    lemma2_to64_rest();
    let u: int = 0x20_0000_0000_0000;
    assert(pow2(53) == u);
    lemma_pow2_adds(53, 53);
    let uu = u * u;
    assert(pow2(106) == uu);
    lemma_pow2_pos(1074);
    lemma_pow2_adds(1074, 1074);
    let n = p * p;
    assert(pow2(2148) == n);
    lemma_pow2_adds(107, 1074);
    let c = pow2(107) as int;
    assert(pow2(1181) == c * p);
    let q = q0 + q1;
    let x = x0 + x1;
    let delta = q * y - n;
    let em = r * p - q * x;
    let my = magnitude(y) as int;
    let mx0 = magnitude(x0) as int;
    let mq0 = magnitude(q0) as int;
    // (r y - x p) p = em y + x delta
    assert((r * y - x * p) * p == em * y + x * delta) by (nonlinear_arith)
        requires
            em == r * p - q * x,
            delta == q * y - n,
            n == p * p,
    ;
    // |q.hi| |y| <= n (1 + 2^-50)
    let mq = magnitude(q) as int;
    assert(uu * magnitude(delta) <= 16 * n);
    assert(mq * my == magnitude(q * y)) by {
        lemma_magnitude_mul(q, y);
    }
    assert(mq * my <= n + magnitude(delta));
    assert((u - 1) * mq0 <= u * mq);
    assert((u - 1) * (mq0 * my) <= u * (mq * my)) by {
        lemma_mul_inequality((u - 1) * mq0, u * mq, my);
        lemma_mul_is_associative(u - 1, mq0, my);
        lemma_mul_is_associative(u, mq, my);
    }
    let k0 = mq0 * my;
    assert(1024 * k0 <= 1025 * n);
    // the product term: u^2 |em y| <= 7 |q.hi x.hi| |y| + c p |y|
    let mem = magnitude(em) as int;
    assert(magnitude(em * y) == mem * my) by {
        lemma_magnitude_mul(em, y);
    }
    assert(magnitude(q0 * x0) == mq0 * mx0) by {
        lemma_magnitude_mul(q0, x0);
    }
    assert(uu * (mem * my) <= 7 * (mx0 * k0) + c * p * my) by (nonlinear_arith)
        requires
            uu * mem <= 7 * (mq0 * mx0) + c * p,
            k0 == mq0 * my,
            0 <= my,
    ;
    // the reciprocal term: u^2 |x delta| <= 16 |x| n
    let mx = magnitude(x) as int;
    let md = magnitude(delta) as int;
    assert(magnitude(x * delta) == mx * md) by {
        lemma_magnitude_mul(x, delta);
    }
    assert(uu * (mx * md) <= 16 * (mx * n)) by (nonlinear_arith)
        requires
            uu * md <= 16 * n,
            0 <= mx,
    ;
    assert(u * mx <= (u + 1) * mx0);
    assert(1024 * (mx0 * k0) <= 1025 * (mx0 * n)) by (nonlinear_arith)
        requires
            1024 * k0 <= 1025 * n,
            0 <= mx0,
    ;
    assert(u * (mx * n) <= (u + 1) * (mx0 * n)) by (nonlinear_arith)
        requires
            u * mx <= (u + 1) * mx0,
            0 <= n,
    ;
    // altogether, divided by p
    let dd = dist(r * y, x * p);
    assert(magnitude((r * y - x * p) * p) == dd * p) by {
        lemma_magnitude_mul(r * y - x * p, p);
    }
    assert(uu * (dd * p) <= 24 * (mx0 * n) + c * p * my);
    assert((uu * dd) * p <= (24 * mx0 * p + c * my) * p) by (nonlinear_arith)
        requires
            uu * (dd * p) <= 24 * (mx0 * n) + c * p * my,
            n == p * p,
    ;
    lemma_mul_inequality_converse(uu * dd, 24 * mx0 * p + c * my, p);
}

/// The quotient of a binary64 number by a double-double number, `div_dq`,
/// the product of `x` and the reciprocal `q` of `y`, errs by at most
/// `19 u^2` of `|x|` (`u = 2^-53`), plus `2^-1074 |y|`:
/// `|r y - x| <= 19 u^2 |x| + 2^-1074 |y|`.  This holds where
/// the reciprocal is accurate (see `law_reciprocal_q_error`) and the
/// product is accurate (see `law_mul_qd_error`).  In
/// units, with `r` the result:
/// `2^106 |(r.hi + r.lo)(y.hi + y.lo) - x 2^1074| <= 19 |x| 2^1074 + 2^106 |y.hi + y.lo|`.
#[verifier::rlimit(100)]
#[verifier::spinoff_prover]
pub proof fn law_div_dq_error(x: u64, yh: u64, yl: u64)
    requires
        enc_is_finite(x),
        enc_is_finite(yh),
        enc_is_finite(yl),
        !enc_is_zero(yh),
        pow2(53) * units(yl) <= units(yh),
        units(yh) <= pow2(2034),
        reciprocal_q_steps_ok(yh, yl),
        mul_qd_steps_ok(reciprocal_q_spec((yh, yl)).0, reciprocal_q_spec((yh, yl)).1, x),
    ensures
        ({
            let r = mul_qd_spec(reciprocal_q_spec((yh, yl)), x);
            pow2(106) * dist(
                (scaled(r.0) + scaled(r.1)) * (scaled(yh) + scaled(yl)),
                scaled(x) * pow2(1074),
            ) <= 19 * magnitude(scaled(x)) * pow2(1074) + pow2(106) * magnitude(
                scaled(yh) + scaled(yl),
            )
        }),
{
    let q = reciprocal_q_spec((yh, yl));
    law_reciprocal_q_error(yh, yl);
    lemma_div_by_reciprocal_d(x, yh, yl, q.0, q.1);
}

/// The steps of `mul_qd` on `x` and `y` stay finite, the product of the
/// leading parts leaves an exact error term, and the final Fast2Sum finds
/// its operands ordered.
pub open spec fn mul_qd_steps_ok(xh: u64, xl: u64, y: u64) -> bool {
    let c = two_prod(xh, y);
    let cl = ffma(xl, y, c.1);
    &&& unit_shift(xh) + unit_shift(y) >= 1074
    &&& enc_is_finite(c.0)
    &&& enc_is_finite(cl)
    &&& units(cl) <= units(c.0)
    &&& enc_is_finite(fast_two_sum(c.0, cl).0)
}

/// `law_div_dq_error` for a reciprocal `q` of `y` that is within `16 u^2`.
#[verifier::rlimit(100)]
#[verifier::spinoff_prover]
proof fn lemma_div_by_reciprocal_d(x: u64, yh: u64, yl: u64, qh: u64, ql: u64)
    requires
        enc_is_finite(x),
        enc_is_finite(qh),
        enc_is_finite(ql),
        pow2(53) * units(ql) <= units(qh),
        mul_qd_steps_ok(qh, ql, x),
        pow2(106) * dist(
            (scaled(qh) + scaled(ql)) * (scaled(yh) + scaled(yl)),
            pow2(2148) as int,
        ) <= 16 * pow2(2148),
    ensures
        ({
            let r = mul_qd_spec((qh, ql), x);
            pow2(106) * dist(
                (scaled(r.0) + scaled(r.1)) * (scaled(yh) + scaled(yl)),
                scaled(x) * pow2(1074),
            ) <= 19 * magnitude(scaled(x)) * pow2(1074) + pow2(106) * magnitude(
                scaled(yh) + scaled(yl),
            )
        }),
{
    law_mul_qd_error(qh, ql, x);
    lemma2_to64();
    lemma2_to64_rest();
    assert(pow2(53) == 0x20_0000_0000_0000);
    assert(magnitude(scaled(ql)) == units(ql) && magnitude(scaled(qh)) == units(qh));
    let r = mul_qd_spec((qh, ql), x);
    lemma_div_combine_d(
        pow2(1074) as int,
        scaled(qh),
        scaled(ql),
        scaled(x),
        scaled(yh) + scaled(yl),
        scaled(r.0) + scaled(r.1),
    );
}

/// A product of a binary64 number by a reciprocal, on integers: where
/// `q y` is within `16 u^2` of one (`n = p^2`) and `r` within
/// `2 u^2 |q.hi x|` of `q x`, `r y` is within `19 u^2 |x|` of `x`, plus
/// `2^106 |y|` units.
#[verifier::rlimit(60)]
#[verifier::spinoff_prover]
proof fn lemma_div_combine_d(p: int, q0: int, q1: int, x: int, y: int, r: int)
    requires
        p == pow2(1074),
        0x20_0000_0000_0000 * magnitude(q1) <= magnitude(q0),
        pow2(106) * dist((q0 + q1) * y, pow2(2148) as int) <= 16 * pow2(2148),
        pow2(106) * magnitude(r * p - (q0 + q1) * x) <= 2 * magnitude(q0 * x) + pow2(1179)
            + pow2(1126),
    ensures
        pow2(106) * dist(r * y, x * p) <= 19 * magnitude(x) * p + pow2(106) * magnitude(y),
{
    lemma2_to64();
    lemma2_to64_rest();
    let u: int = 0x20_0000_0000_0000;
    assert(pow2(53) == u);
    lemma_pow2_adds(53, 53);
    let uu = u * u;
    assert(pow2(106) == uu);
    lemma_pow2_pos(1074);
    lemma_pow2_adds(1074, 1074);
    let n = p * p;
    assert(pow2(2148) == n);
    lemma_pow2_adds(105, 1074);
    lemma_pow2_adds(52, 1074);
    lemma_pow2_adds(1, 105);
    lemma_pow2_adds(53, 52);
    let c = pow2(105) as int;
    let c2 = pow2(52) as int;
    assert(pow2(1179) == c * p);
    assert(pow2(1126) == c2 * p);
    assert(c + c2 <= uu);
    let q = q0 + q1;
    let delta = q * y - n;
    let em = r * p - q * x;
    let my = magnitude(y) as int;
    let mx = magnitude(x) as int;
    let mq0 = magnitude(q0) as int;
    assert((r * y - x * p) * p == em * y + x * delta) by (nonlinear_arith)
        requires
            em == r * p - q * x,
            delta == q * y - n,
            n == p * p,
    ;
    let mq = magnitude(q) as int;
    assert(uu * magnitude(delta) <= 16 * n);
    assert(mq * my == magnitude(q * y)) by {
        lemma_magnitude_mul(q, y);
    }
    assert(mq * my <= n + magnitude(delta));
    assert((u - 1) * mq0 <= u * mq);
    assert((u - 1) * (mq0 * my) <= u * (mq * my)) by {
        lemma_mul_inequality((u - 1) * mq0, u * mq, my);
        lemma_mul_is_associative(u - 1, mq0, my);
        lemma_mul_is_associative(u, mq, my);
    }
    let k0 = mq0 * my;
    assert(1024 * k0 <= 1025 * n);
    let mem = magnitude(em) as int;
    assert(magnitude(em * y) == mem * my) by {
        lemma_magnitude_mul(em, y);
    }
    assert(magnitude(q0 * x) == mq0 * mx) by {
        lemma_magnitude_mul(q0, x);
    }
    assert(uu * (mem * my) <= 2 * (mx * k0) + (c + c2) * p * my) by (nonlinear_arith)
        requires
            uu * mem <= 2 * (mq0 * mx) + c * p + c2 * p,
            k0 == mq0 * my,
            0 <= my,
    ;
    assert((c + c2) * p * my <= uu * p * my) by (nonlinear_arith)
        requires
            c + c2 <= uu,
            0 <= p,
            0 <= my,
    ;
    let md = magnitude(delta) as int;
    assert(magnitude(x * delta) == mx * md) by {
        lemma_magnitude_mul(x, delta);
    }
    assert(uu * (mx * md) <= 16 * (mx * n)) by (nonlinear_arith)
        requires
            uu * md <= 16 * n,
            0 <= mx,
    ;
    assert(1024 * (mx * k0) <= 1025 * (mx * n)) by (nonlinear_arith)
        requires
            1024 * k0 <= 1025 * n,
            0 <= mx,
    ;
    let dd = dist(r * y, x * p);
    assert(magnitude((r * y - x * p) * p) == dd * p) by {
        lemma_magnitude_mul(r * y - x * p, p);
    }
    assert(uu * (dd * p) <= 19 * (mx * n) + uu * p * my);
    assert((uu * dd) * p <= (19 * mx * p + uu * my) * p) by (nonlinear_arith)
        requires
            uu * (dd * p) <= 19 * (mx * n) + uu * p * my,
            n == p * p,
    ;
    lemma_mul_inequality_converse(uu * dd, 19 * mx * p + uu * my, p);
}

// ---------------------------------------------------------------------------
// Sums relative to the exact result

/// Rounding does not pass a binary64 magnitude `w`: `m <= w` gives
/// `rnd(m) <= w`, and `w <= m` gives `w <= rnd(m)`.
pub proof fn lemma_rnd_monotone_at(m: nat, w: nat)
    requires
        representable(w),
    ensures
        m <= w ==> rnd(m, 0) <= w,
        w <= m ==> w <= rnd(m, 0),
{
    crate::rounding::lemma_rnd_nearest(m, w);
}

/// The value of a finite binary64 sum: the exact sum, rounded.
proof fn lemma_fadd_value(a: u64, b: u64)
    requires
        enc_is_finite(a),
        enc_is_finite(b),
        enc_is_finite(fadd(a, b)),
    ensures
        scaled(fadd(a, b)) == with_sign(scaled(a) + scaled(b), rnd(magnitude(scaled(a) + scaled(b)), 0)),
{
    crate::ops::lemma_round_signed_value(scaled(a) + scaled(b), sign_bit(a) && sign_bit(b));
}

/// A finite binary64 sum whose exact value is a binary64 magnitude is
/// that value.
proof fn lemma_fadd_exact(a: u64, b: u64)
    requires
        enc_is_finite(a),
        enc_is_finite(b),
        representable(magnitude(scaled(a) + scaled(b))),
        !overflows(magnitude(scaled(a) + scaled(b))),
    ensures
        enc_is_finite(fadd(a, b)),
        scaled(fadd(a, b)) == scaled(a) + scaled(b),
{
    crate::ops::lemma_round_exact(scaled(a) + scaled(b), sign_bit(a) && sign_bit(b));
}

/// A normalized pair, `x.hi == x.hi + x.lo` in binary64, has its
/// compensate within half a unit in the last place of its leading part, and
/// so within `2^-53` of it.
pub proof fn lemma_normalized_half_ulp(xh: u64, xl: u64)
    requires
        enc_is_finite(xh),
        enc_is_finite(xl),
        fadd(xh, xl) == xh,
    ensures
        2 * units(xl) <= pow2(unit_shift(xh)),
        pow2(53) * units(xl) <= units(xh),
{
    lemma2_to64();
    lemma2_to64_rest();
    let h = scaled(xh);
    let l = scaled(xl);
    let sh = unit_shift(xh);
    let sig = significand(xh);
    let m = magnitude(h + l);
    let r = rnd(m, 0);
    lemma_fadd_value(xh, xl);
    lemma_pow2_pos(sh);
    assert(units(xh) == sig * pow2(sh));
    if 2 * units(xl) > pow2(sh) {
        if h == 0 {
            lemma_rnd_relative_units(m);
            assert(r == 0);
            assert(m == 0);
            assert(false);
        }
        assert(r == units(xh));
        assert(m != 0) by {
            if m == 0 {
                crate::rounding::lemma_rnd_zero(0);
            }
        }
        assert(dist(r as int, m as int) == units(xl));
        assert(sig >= 1) by {
            if sig == 0 {
                lemma_mul_basics(pow2(sh) as int);
            }
        }
        lemma_units_bounds(xh);
        if m > r {
            let w = ((sig + 1) * pow2(sh)) as nat;
            lemma_representable_small((sig + 1) as nat, sh);
            lemma_mul_is_distributive_add_other_way(pow2(sh) as int, sig as int, 1);
            crate::rounding::lemma_rnd_nearest(m, w);
        } else {
            let w = ((sig - 1) * pow2(sh)) as nat;
            lemma_representable_small((sig - 1) as nat, sh);
            lemma_mul_is_distributive_sub_other_way(pow2(sh) as int, sig as int, 1);
            crate::rounding::lemma_rnd_nearest(m, w);
        }
        assert(false);
    }
    if exp_field(xh) == 0 {
        assert(sh == 0);
        assert(units(xl) == 0);
        lemma_mul_basics(pow2(53) as int);
    } else {
        assert(sig >= pow2(52));
        lemma_mul_inequality(pow2(52) as int, sig as int, pow2(sh) as int);
        lemma_mul_inequality((2 * units(xl)) as int, pow2(sh) as int, pow2(52) as int);
        lemma_mul_is_commutative(pow2(sh) as int, pow2(52) as int);
        lemma_mul_is_associative(2, units(xl) as int, pow2(52) as int);
        lemma_pow2_adds(1, 52);
        lemma_mul_is_commutative(units(xl) as int, pow2(53) as int);
    }
}

/// Fast2Sum with a zero first operand returns the second operand and a
/// zero correction.
pub proof fn lemma_fast_two_sum_zero(a: u64, b: u64)
    requires
        enc_is_finite(a),
        enc_is_finite(b),
        scaled(a) == 0,
    ensures
        enc_is_finite(fast_two_sum(a, b).0),
        enc_is_finite(fast_two_sum(a, b).1),
        scaled(fast_two_sum(a, b).0) == scaled(b),
        scaled(fast_two_sum(a, b).1) == 0,
{
    let s = fadd(a, b);
    crate::rounding::lemma_rnd_exact(b);
    crate::rounding::lemma_enc_of_units(b);
    assert(magnitude(scaled(a) + scaled(b)) == units(b));
    lemma_fadd_exact(a, b);
    lemma_fneg_value(a);
    assert(magnitude(scaled(s) + scaled(fneg(a))) == units(b));
    lemma_fadd_exact(s, fneg(a));
    let z = fsub(s, a);
    lemma_fneg_value(z);
    crate::rounding::lemma_rnd_zero(0);
    lemma_pow2_pos(2098);
    assert(representable(0));
    lemma_fadd_exact(b, fneg(z));
}

/// A sum that cancels more than half of `a` is exact (Sterbenz): where
/// `2 |a + b| < |a|`, `a + b` is a binary64 magnitude, and where it is not
/// zero it is at least half a unit in the last place of `a`.
proof fn lemma_cancel_exact(a: u64, b: u64)
    requires
        enc_is_finite(a),
        enc_is_finite(b),
        2 * magnitude(scaled(a) + scaled(b)) < units(a),
    ensures
        representable(magnitude(scaled(a) + scaled(b))),
        !overflows(magnitude(scaled(a) + scaled(b))),
        scaled(a) + scaled(b) != 0 ==> 2 * magnitude(scaled(a) + scaled(b)) >= pow2(unit_shift(a)),
{
    lemma2_to64();
    lemma2_to64_rest();
    let ha = scaled(a);
    let hb = scaled(b);
    let sa = unit_shift(a);
    let sb = unit_shift(b);
    let ga = significand(a) as int;
    let gb = significand(b) as int;
    let m = magnitude(ha + hb);
    lemma_units_bounds(a);
    lemma_units_bounds(b);
    crate::rounding::lemma_enc_of_units(a);
    lemma_pow2_pos(sa);
    lemma_pow2_pos(sb);
    assert(ga < pow2(53)) by {
        assert(a % 0x10_0000_0000_0000 < 0x10_0000_0000_0000) by (bit_vector);
    }
    assert(gb < pow2(53)) by {
        assert(b % 0x10_0000_0000_0000 < 0x10_0000_0000_0000) by (bit_vector);
    }
    // the grid: both are multiples of 2^k, k the smaller shift (at least sa - 1)
    let k: nat = if sb >= sa {
        sa
    } else {
        sb
    };
    if sb < sa {
        // a is normal, so |a| >= 2^(52 + sa) and |b| > 2^(51 + sa)
        assert(ga >= pow2(52));
        lemma_mul_inequality(pow2(52) as int, ga, pow2(sa) as int);
        lemma_mul_strict_inequality(gb, pow2(53) as int, pow2(sb) as int);
        lemma_pow2_adds(52, sa);
        lemma_pow2_adds(53, sb);
        if sb + 1 < sa {
            lemma_pow2_le(53 + sb, 51 + sa);
            lemma_pow2_adds(51, sa);
            assert(pow2(52 + sa) == 2 * pow2(51 + sa)) by {
                lemma_pow2_adds(1, 51 + sa);
            }
            assert(false);
        }
        assert(k == sa - 1);
    }
    let da = (sa - k) as nat;
    let db = (sb - k) as nat;
    lemma_pow2_adds(da, k);
    lemma_pow2_adds(db, k);
    let ca = ga * pow2(da);
    let cb = gb * pow2(db);
    lemma_mul_is_associative(ga, pow2(da) as int, pow2(k) as int);
    lemma_mul_is_associative(gb, pow2(db) as int, pow2(k) as int);
    assert(units(a) == ca * pow2(k));
    assert(units(b) == cb * pow2(k));
    let c = if ha + hb >= 0 {
        ha + hb
    } else {
        -(ha + hb)
    };
    // |a + b| == |ca +- cb| * 2^k
    let cc: int = if sign_bit(a) == sign_bit(b) {
        ca + cb
    } else if ca >= cb {
        ca - cb
    } else {
        cb - ca
    };
    assert(m == cc * pow2(k)) by {
        lemma_mul_is_distributive_add_other_way(pow2(k) as int, ca, cb);
        lemma_mul_is_distributive_sub_other_way(pow2(k) as int, ca, cb);
        lemma_mul_is_distributive_sub_other_way(pow2(k) as int, cb, ca);
    }
    assert(cc >= 0);
    // 2 m < |a| < 2^(53 + sa) gives cc < 2^53
    lemma_mul_strict_inequality(ga, pow2(53) as int, pow2(sa) as int);
    lemma_pow2_adds(53, sa);
    if sb >= sa {
        assert(2 * (cc * pow2(k)) < pow2(53) * pow2(k));
        lemma_mul_is_associative(2, cc, pow2(k) as int);
        lemma_mul_strict_inequality_converse(2 * cc, pow2(53) as int, pow2(k) as int);
    } else {
        lemma_pow2_adds(1, k);
        assert(pow2(sa) == 2 * pow2(k));
        assert(2 * (cc * pow2(k)) < pow2(53) * (2 * pow2(k)));
        lemma_mul_is_associative(pow2(53) as int, 2, pow2(k) as int);
        lemma_mul_is_associative(2, cc, pow2(k) as int);
        lemma_mul_strict_inequality_converse(2 * cc, 2 * pow2(53) as int, pow2(k) as int);
    }
    assert(cc < pow2(53));
    lemma_representable_small(cc as nat, k);
    assert(m < units(a));
    if ha + hb != 0 {
        assert(cc >= 1) by {
            if cc == 0 {
                lemma_mul_basics(pow2(k) as int);
            }
        }
        lemma_mul_inequality(1, cc, pow2(k) as int);
        if sb < sa {
            lemma_pow2_adds(1, k);
        }
    }
}

/// A finite pair whose compensate is zero is normalized where it is not
/// zero: the binary64 sum of a nonzero number and a zero is that number.
proof fn lemma_pair_with_zero(a: u64, b: u64)
    requires
        enc_is_finite(a),
        enc_is_finite(b),
        scaled(b) == 0,
    ensures
        scaled(a) + scaled(b) != 0 ==> fadd(a, b) == a,
{
    if scaled(a) != 0 {
        crate::rounding::lemma_rnd_exact(a);
        crate::rounding::lemma_enc_of_units(a);
        lemma_units_bounds(a);
    }
}

/// Adding a binary64 number to a double-double number, `add_qd`, errs by
/// at most `4 u^2` of the exact sum (`u = 2^-53`), for every normalized `x`
/// (`x.hi == x.hi + x.lo` in binary64) and `y` where no step overflows.
/// Where the leading parts cancel to less than half of `x.hi`, the sum is
/// exact; otherwise the final Fast2Sum finds its operands ordered.  In
/// units of `2^-1074`, with `r` the result and `z = x.hi + x.lo + y`:
/// `2^106 |(r.hi + r.lo) - z| <= 4 |z|`.
#[verifier::rlimit(60)]
#[verifier::spinoff_prover]
pub proof fn law_add_qd_relative_error(xh: u64, xl: u64, y: u64)
    requires
        enc_is_finite(xh),
        enc_is_finite(xl),
        enc_is_finite(y),
        fadd(xh, xl) == xh,
        enc_is_finite(two_sum(xh, y).0),
        enc_is_finite(fsub(two_sum(xh, y).0, y)),
        enc_is_finite(fadd(xl, two_sum(xh, y).1)),
        enc_is_finite(add_qd_spec((xh, xl), y).0),
    ensures
        ({
            let r = add_qd_spec((xh, xl), y);
            let z = scaled(xh) + scaled(xl) + scaled(y);
            pow2(106) * dist(scaled(r.0) + scaled(r.1), z) <= 4 * magnitude(z)
        }),
        enc_is_finite(add_qd_spec((xh, xl), y).1),
        scaled(add_qd_spec((xh, xl), y).0) + scaled(add_qd_spec((xh, xl), y).1) != 0 ==> fadd(
            add_qd_spec((xh, xl), y).0,
            add_qd_spec((xh, xl), y).1,
        ) == add_qd_spec((xh, xl), y).0,
{
    let st = two_sum(xh, y);
    law_two_sum_exact(xh, y);
    lemma_add_qd_after_two_sum(xh, xl, y, st.0, st.1);
}

/// `add_qd` after its 2Sum `(s0, s1)` of `x.hi` and `y`: the error bound of
/// `law_add_qd_relative_error`.
#[verifier::rlimit(60)]
#[verifier::spinoff_prover]
proof fn lemma_add_qd_after_two_sum(xh: u64, xl: u64, y: u64, s0: u64, s1: u64)
    requires
        enc_is_finite(xh),
        enc_is_finite(xl),
        enc_is_finite(y),
        enc_is_finite(s0),
        enc_is_finite(s1),
        fadd(xh, xl) == xh,
        s0 == fadd(xh, y),
        scaled(s0) + scaled(s1) == scaled(xh) + scaled(y),
        enc_is_finite(fadd(xl, s1)),
        enc_is_finite(fast_two_sum(s0, fadd(xl, s1)).0),
    ensures
        ({
            let r = fast_two_sum(s0, fadd(xl, s1));
            let z = scaled(xh) + scaled(xl) + scaled(y);
            pow2(106) * dist(scaled(r.0) + scaled(r.1), z) <= 4 * magnitude(z)
        }),
        enc_is_finite(fast_two_sum(s0, fadd(xl, s1)).1),
        scaled(fast_two_sum(s0, fadd(xl, s1)).0) + scaled(fast_two_sum(s0, fadd(xl, s1)).1) != 0
            ==> fadd(fast_two_sum(s0, fadd(xl, s1)).0, fast_two_sum(s0, fadd(xl, s1)).1)
            == fast_two_sum(s0, fadd(xl, s1)).0,
{
    lemma2_to64();
    lemma2_to64_rest();
    let u: int = 0x20_0000_0000_0000;
    assert(pow2(53) == u);
    lemma_pow2_adds(53, 53);
    assert(pow2(106) == u * u);
    let h = scaled(xh);
    let l = scaled(xl);
    let yy = scaled(y);
    let a0 = scaled(s0);
    let a1 = scaled(s1);
    let v = fadd(xl, s1);
    let vv = scaled(v);
    let z = h + l + yy;
    let hy = h + yy;
    lemma_fadd_relative(xh, y);
    assert(u * magnitude(a1) <= magnitude(hy));
    lemma_normalized_half_ulp(xh, xl);
    assert(u * magnitude(l) <= magnitude(h));
    lemma_fadd_relative(xl, s1);
    let r = fast_two_sum(s0, v);
    if 2 * magnitude(hy) < units(xh) {
        // the leading parts cancel: everything is exact
        lemma_cancel_exact(xh, y);
        lemma_fadd_exact(xh, y);
        assert(a1 == 0);
        crate::rounding::lemma_rnd_exact(xl);
        crate::rounding::lemma_enc_of_units(xl);
        lemma_fadd_exact(xl, s1);
        assert(vv == l);
        if a0 == 0 {
            lemma_fast_two_sum_zero(s0, v);
            lemma_pair_with_zero(r.0, r.1);
        } else {
            assert(2 * magnitude(hy) >= pow2(unit_shift(xh)));
            law_fast_two_sum_exact(s0, v);
            if scaled(r.0) + scaled(r.1) != 0 {
                law_fast_two_sum_normalized(s0, v);
            }
        }
        assert(scaled(r.0) + scaled(r.1) == z);
        lemma_mul_basics(u * u);
    } else {
        // no cancellation: |v| <= |s0|, and the final Fast2Sum is exact
        let m = magnitude(l + a1);
        assert(u * m <= 3 * magnitude(hy));
        assert(u * magnitude(a0) >= (u - 1) * magnitude(hy));
        assert(m <= magnitude(a0));
        lemma_fadd_value(xl, s1);
        crate::rounding::lemma_rnd_exact(s0);
        lemma_rnd_monotone_at(m, units(s0));
        assert(units(v) <= units(s0));
        law_fast_two_sum_exact(s0, v);
        if scaled(r.0) + scaled(r.1) != 0 {
            law_fast_two_sum_normalized(s0, v);
        }
        let e = dist(vv, l + a1);
        assert(u * e <= m);
        assert(scaled(r.0) + scaled(r.1) - z == vv - (l + a1));
        assert(u * (u * e) <= 3 * magnitude(hy));
        assert(magnitude(z) >= magnitude(hy) - magnitude(l));
        assert(u * u * e <= 4 * magnitude(z));
    }
}

/// Adding a binary64 number `y` with `|y| <= |x.hi|` to a double-double
/// number, `addfast_qd`, errs by at most `4 u^2` of the exact sum
/// (`u = 2^-53`), for every normalized `x` (`x.hi == x.hi + x.lo` in
/// binary64) where no step overflows: as `law_add_qd_relative_error`, with
/// Fast2Sum in place of 2Sum.  In units of `2^-1074`, with `r` the result
/// and `z = x.hi + x.lo + y`: `2^106 |(r.hi + r.lo) - z| <= 4 |z|`.
#[verifier::rlimit(40)]
pub proof fn law_addfast_qd_relative_error(xh: u64, xl: u64, y: u64)
    requires
        enc_is_finite(xh),
        enc_is_finite(xl),
        enc_is_finite(y),
        units(y) <= units(xh),
        fadd(xh, xl) == xh,
        enc_is_finite(fast_two_sum(xh, y).0),
        enc_is_finite(fadd(xl, fast_two_sum(xh, y).1)),
        enc_is_finite(addfast_qd_spec((xh, xl), y).0),
    ensures
        ({
            let r = addfast_qd_spec((xh, xl), y);
            let z = scaled(xh) + scaled(xl) + scaled(y);
            pow2(106) * dist(scaled(r.0) + scaled(r.1), z) <= 4 * magnitude(z)
        }),
{
    let st = fast_two_sum(xh, y);
    law_fast_two_sum_exact(xh, y);
    lemma_add_qd_after_two_sum(xh, xl, y, st.0, st.1);
}

/// Rounding a multiple of `2^k` gives a multiple of `2^k`.
pub proof fn lemma_rnd_multiple(j: nat, k: nat) -> (q: nat)
    ensures
        rnd(j * pow2(k), 0) == q * pow2(k),
{
    crate::rounding::lemma_rnd_shift(j, 0, k);
    let g = grid(j, k as int);
    if (k as int) <= g {
        let d = (g - k) as nat;
        lemma_pow2_adds(d, k);
        lemma_mul_is_associative(rne_shr(j, d) as int, pow2(d) as int, pow2(k) as int);
        rne_shr(j, d) * pow2(d)
    } else {
        j
    }
}

/// Fast2Sum is exact where its first operand, the smaller in magnitude, is
/// a multiple of the unit in the last place of the second.
#[verifier::rlimit(40)]
proof fn lemma_fast_two_sum_grid(a: u64, b: u64, ja: int)
    requires
        enc_is_finite(a),
        enc_is_finite(b),
        units(a) < units(b),
        scaled(a) == ja * pow2(unit_shift(b)),
        enc_is_finite(fast_two_sum(a, b).0),
    ensures
        enc_is_finite(fast_two_sum(a, b).1),
        scaled(fast_two_sum(a, b).0) + scaled(fast_two_sum(a, b).1) == scaled(a) + scaled(b),
{
    lemma2_to64();
    lemma2_to64_rest();
    let u: int = 0x20_0000_0000_0000;
    assert(pow2(53) == u);
    let k = unit_shift(b);
    let p = pow2(k) as int;
    lemma_pow2_pos(k);
    let gb = significand(b) as int;
    assert(gb < u) by {
        assert(b % 0x10_0000_0000_0000 < 0x10_0000_0000_0000) by (bit_vector);
    }
    let jb: int = if sign_bit(b) {
        -gb
    } else {
        gb
    };
    assert(units(b) == gb * p);
    assert(scaled(b) == jb * p) by {
        lemma_mul_unary_negation(gb, p);
    }
    let sum = scaled(a) + scaled(b);
    let js = ja + jb;
    assert(sum == js * p) by {
        lemma_mul_is_distributive_add_other_way(p, ja, jb);
    }
    let jm = magnitude(js);
    assert(magnitude(sum) == jm * p) by {
        lemma_magnitude_mul(js, p);
    }
    assert(magnitude(ja) * p == units(a)) by {
        lemma_magnitude_mul(ja, p);
    }
    lemma_mul_strict_inequality_converse(magnitude(ja) as int, gb, p);
    assert(gb >= 1);
    assert(sum < 0 <==> js < 0) by {
        if js > 0 {
            lemma_mul_strictly_positive(js, p);
        } else if js < 0 {
            lemma_mul_strictly_positive(-js, p);
            lemma_mul_unary_negation(-js, p);
        } else {
            lemma_mul_basics(p);
        }
    }
    let s = fadd(a, b);
    lemma_fadd_value(a, b);
    let q = lemma_rnd_multiple(jm, k);
    lemma_fadd_relative(a, b);
    let qs: int = if sum < 0 {
        -q
    } else {
        q as int
    };
    assert(scaled(s) == qs * p) by {
        lemma_mul_unary_negation(q as int, p);
    }
    let d = qs - js;
    assert(scaled(s) - sum == d * p) by {
        lemma_mul_is_distributive_sub_other_way(p, qs, js);
    }
    assert(dist(scaled(s), sum) == magnitude(d) * p) by {
        lemma_magnitude_mul(d, p);
    }
    assert(u * magnitude(d) <= jm) by {
        lemma_mul_is_associative(u, magnitude(d) as int, p);
        lemma_mul_inequality_converse(u * magnitude(d), jm as int, p);
    }
    assert(magnitude(d) <= 1);
    // the exact value of `s - a`
    let zv = scaled(s) - scaled(a);
    assert(zv == (jb + d) * p) by {
        lemma_mul_is_distributive_sub_other_way(p, qs, ja);
    }
    let mz = magnitude(jb + d);
    assert(magnitude(zv) == mz * p) by {
        lemma_magnitude_mul(jb + d, p);
    }
    lemma_representable_small(mz, k);
    crate::rounding::lemma_enc_of_units(b);
    crate::rounding::lemma_enc_of_units(s);
    if d == 0 {
        assert(mz == gb);
    } else {
        if jm < u {
            lemma_representable_small(jm, k);
            lemma_mul_is_commutative(q as int, p);
            lemma_mul_is_commutative(jm as int, p);
            lemma_mul_equality_converse(p, q as int, jm as int);
            assert(false);
        }
        assert(mz <= q);
        lemma_mul_inequality(mz as int, q as int, p);
        assert(units(s) == q * p);
    }
    assert(!overflows(magnitude(zv)));
    lemma_fneg_value(a);
    lemma_fadd_exact(s, fneg(a));
    let z = fsub(s, a);
    assert(scaled(z) == zv);
    // the exact value of `b - z`
    lemma_fneg_value(z);
    let tv = scaled(b) - zv;
    assert(tv == (-d) * p) by {
        lemma_mul_is_distributive_sub_other_way(p, jb, jb + d);
    }
    assert(magnitude(tv) == magnitude(d) * p) by {
        lemma_magnitude_mul(-d, p);
    }
    lemma_representable_small(magnitude(d), k);
    lemma_mul_inequality(magnitude(d) as int, gb, p);
    lemma_fadd_exact(b, fneg(z));
}

/// A binary64 number `s` that is the rounding of `m` units lies within
/// half a unit in its last place of `m`.
proof fn lemma_round_half_ulp(s: u64, m: nat)
    requires
        enc_is_finite(s),
        rnd(m, 0) == units(s),
    ensures
        2 * dist(units(s) as int, m as int) <= pow2(unit_shift(s)),
{
    lemma2_to64();
    lemma2_to64_rest();
    let sh = unit_shift(s);
    let sig = significand(s);
    let p = pow2(sh) as int;
    let r = units(s) as int;
    lemma_pow2_pos(sh);
    assert(sig < pow2(53)) by {
        assert(s % 0x10_0000_0000_0000 < 0x10_0000_0000_0000) by (bit_vector);
    }
    if 2 * dist(r, m as int) > p {
        if m > r {
            let w = ((sig + 1) * pow2(sh)) as nat;
            lemma_representable_small((sig + 1) as nat, sh);
            lemma_mul_is_distributive_add_other_way(p, sig as int, 1);
            crate::rounding::lemma_rnd_nearest(m, w);
        } else {
            assert(sig >= 1) by {
                if sig == 0 {
                    lemma_mul_basics(p);
                }
            }
            let w = ((sig - 1) * pow2(sh)) as nat;
            lemma_representable_small((sig - 1) as nat, sh);
            lemma_mul_is_distributive_sub_other_way(p, sig as int, 1);
            crate::rounding::lemma_rnd_nearest(m, w);
        }
        assert(false);
    }
}

/// The last steps of `add_qq` and `addfast_qq`, after the sums
/// `(s0, s1)` of the leading parts and `(t0, t1)` of the compensates.
spec fn add_qq_tail(s0: u64, s1: u64, t0: u64, t1: u64) -> (u64, u64) {
    let c = fadd(s1, t0);
    let v = fast_two_sum(s0, c);
    fast_two_sum(v.0, fadd(t1, v.1))
}

/// No step of `add_qq_tail` overflows.
spec fn add_qq_tail_finite(s0: u64, s1: u64, t0: u64, t1: u64) -> bool {
    let c = fadd(s1, t0);
    let v = fast_two_sum(s0, c);
    &&& enc_is_finite(c)
    &&& enc_is_finite(v.0)
    &&& enc_is_finite(fadd(t1, v.1))
    &&& enc_is_finite(fast_two_sum(v.0, fadd(t1, v.1)).0)
}

/// Normalized `x` and `y`, and exact sums `(s0, s1)` of their leading
/// parts and `(t0, t1)` of their compensates, the first of each pair the
/// rounded sum.
spec fn add_qq_split(xh: u64, xl: u64, yh: u64, yl: u64, s0: u64, s1: u64, t0: u64, t1: u64) -> bool {
    &&& enc_is_finite(xh)
    &&& enc_is_finite(xl)
    &&& enc_is_finite(yh)
    &&& enc_is_finite(yl)
    &&& enc_is_finite(s0)
    &&& enc_is_finite(s1)
    &&& enc_is_finite(t0)
    &&& enc_is_finite(t1)
    &&& fadd(xh, xl) == xh
    &&& fadd(yh, yl) == yh
    &&& s0 == fadd(xh, yh)
    &&& scaled(s0) + scaled(s1) == scaled(xh) + scaled(yh)
    &&& t0 == fadd(xl, yl)
    &&& scaled(t0) + scaled(t1) == scaled(xl) + scaled(yl)
    &&& add_qq_tail_finite(s0, s1, t0, t1)
}

/// `r` is within `8 u^2` of the exact sum of `x` and `y`.
spec fn add_qq_bound(xh: u64, xl: u64, yh: u64, yl: u64, r: (u64, u64)) -> bool {
    let z = scaled(xh) + scaled(xl) + scaled(yh) + scaled(yl);
    pow2(106) * dist(scaled(r.0) + scaled(r.1), z) <= 8 * magnitude(z)
}

/// The arithmetic of the first Fast2Sum of `add_qq_tail` without
/// cancellation: with `h` and `l` the sums of the leading parts and of the
/// compensates, `(a0, a1)` and `(b0, b1)` their exact splits, and `cc` the
/// rounded sum of `a1` and `b0`, the Fast2Sum of `a0` and `cc` finds them
/// ordered, and their sum is within a factor of two of `h`.
proof fn lemma_spread_head(h: int, l: int, a0: int, a1: int, b0: int, b1: int, cc: int)
    requires
        0x20_0000_0000_0000 * magnitude(l) <= 4 * magnitude(h),
        a0 + a1 == h,
        b0 + b1 == l,
        0x20_0000_0000_0000 * dist(a0, h) <= magnitude(h),
        0x20_0000_0000_0000 * dist(b0, l) <= magnitude(l),
        0x20_0000_0000_0000 * dist(cc, a1 + b0) <= magnitude(a1 + b0),
    ensures
        magnitude(a1 + b0) <= magnitude(a0),
        0x20_0000_0000_0000 * magnitude(a1 + b0) <= 5 * magnitude(h) + magnitude(l),
        magnitude(a0 + cc) <= 2 * magnitude(h),
        2 * magnitude(a0 + cc) >= magnitude(h),
        0x20_0000_0000_0000 * magnitude(b1) <= magnitude(l),
{
    let u: int = 0x20_0000_0000_0000;
    let hh = magnitude(h) as int;
    let ll = magnitude(l) as int;
    assert(ll <= hh);
    assert(u * magnitude(a1) <= hh);
    assert(u * magnitude(b0) <= u * ll + ll);
    let m1 = magnitude(a1 + b0) as int;
    assert(m1 <= magnitude(a1) + magnitude(b0));
    assert(u * m1 <= 5 * hh + ll);
    assert(u * magnitude(a0) >= u * hh - hh);
    assert(u * magnitude(a0) <= u * hh + hh);
    assert(m1 <= magnitude(a0));
    assert(m1 <= hh);
    assert(u * magnitude(cc) <= u * m1 + m1);
    assert(u * magnitude(cc) <= 7 * hh);
    let aa = magnitude(a0 + cc) as int;
    assert(aa <= magnitude(a0) + magnitude(cc));
    assert(aa >= magnitude(a0) - magnitude(cc));
    assert(u * aa <= u * hh + 8 * hh);
    assert(u * aa >= u * hh - 8 * hh);
}

/// The arithmetic of the end of `add_qq_tail` without cancellation: the
/// last Fast2Sum finds its operands ordered, and the result errs by at
/// most `8 u^2` of `h + l`.
proof fn lemma_spread_tail(
    h: int,
    l: int,
    a0: int,
    a1: int,
    b0: int,
    b1: int,
    cc: int,
    v0: int,
    v1: int,
    ww: int,
)
    requires
        0x20_0000_0000_0000 * magnitude(l) <= 4 * magnitude(h),
        a0 + a1 == h,
        b0 + b1 == l,
        0x20_0000_0000_0000 * magnitude(b1) <= magnitude(l),
        0x20_0000_0000_0000 * dist(cc, a1 + b0) <= magnitude(a1 + b0),
        0x20_0000_0000_0000 * magnitude(a1 + b0) <= 5 * magnitude(h) + magnitude(l),
        magnitude(a0 + cc) <= 2 * magnitude(h),
        2 * magnitude(a0 + cc) >= magnitude(h),
        v0 + v1 == a0 + cc,
        0x20_0000_0000_0000 * dist(v0, a0 + cc) <= magnitude(a0 + cc),
        0x20_0000_0000_0000 * dist(ww, b1 + v1) <= magnitude(b1 + v1),
    ensures
        magnitude(b1 + v1) <= magnitude(v0),
        0x20_0000_0000_0000 * 0x20_0000_0000_0000 * dist(v0 + ww, h + l) <= 8 * magnitude(h + l),
{
    let u: int = 0x20_0000_0000_0000;
    let hh = magnitude(h) as int;
    let ll = magnitude(l) as int;
    let aa = magnitude(a0 + cc) as int;
    let m1 = magnitude(a1 + b0) as int;
    assert(u * magnitude(v1) <= aa);
    let m2 = magnitude(b1 + v1) as int;
    assert(m2 <= magnitude(b1) + magnitude(v1));
    assert(u * m2 <= ll + aa);
    assert(magnitude(v0) >= aa - magnitude(v1));
    assert(m2 <= magnitude(v0));
    let e1 = cc - (a1 + b0);
    let e2 = ww - (b1 + v1);
    assert(v0 + ww - (h + l) == e1 + e2);
    let d = dist(v0 + ww, h + l);
    assert(d <= magnitude(e1) + magnitude(e2));
    assert(u * (u * magnitude(e1)) <= u * m1);
    assert(u * (u * magnitude(e2)) <= u * m2);
    assert(u * (u * d) <= u * (u * magnitude(e1)) + u * (u * magnitude(e2)));
    assert(u * (u * d) <= 7 * hh + 2 * ll);
    assert(10 * ll <= hh);
    assert(magnitude(h + l) >= hh - ll);
    assert(u * (u * d) <= 8 * magnitude(h + l));
    assert(0x20_0000_0000_0000 * 0x20_0000_0000_0000 * d == u * (u * d)) by (nonlinear_arith)
        requires
            u == 0x20_0000_0000_0000,
    ;
}

/// `add_qq_tail` where the leading parts do not cancel to less than half of
/// either: both Fast2Sum steps find their operands ordered.
#[verifier::rlimit(40)]
#[verifier::spinoff_prover]
proof fn lemma_add_qq_spread(xh: u64, xl: u64, yh: u64, yl: u64, s0: u64, s1: u64, t0: u64, t1: u64)
    requires
        add_qq_split(xh, xl, yh, yl, s0, s1, t0, t1),
        2 * magnitude(scaled(xh) + scaled(yh)) >= units(xh),
        2 * magnitude(scaled(xh) + scaled(yh)) >= units(yh),
    ensures
        add_qq_bound(xh, xl, yh, yl, add_qq_tail(s0, s1, t0, t1)),
{
    lemma2_to64();
    lemma2_to64_rest();
    let u: int = 0x20_0000_0000_0000;
    assert(pow2(53) == u);
    lemma_pow2_adds(53, 53);
    assert(pow2(106) == u * u);
    let h = scaled(xh) + scaled(yh);
    let l = scaled(xl) + scaled(yl);
    assert(u * magnitude(l) <= 4 * magnitude(h)) by {
        lemma_normalized_half_ulp(xh, xl);
        lemma_normalized_half_ulp(yh, yl);
    }
    lemma_fadd_relative(xh, yh);
    lemma_fadd_relative(xl, yl);
    let a0 = scaled(s0);
    let a1 = scaled(s1);
    let b0 = scaled(t0);
    let b1 = scaled(t1);
    let c = fadd(s1, t0);
    lemma_fadd_relative(s1, t0);
    let cc = scaled(c);
    lemma_spread_head(h, l, a0, a1, b0, b1, cc);
    assert(units(c) <= units(s0)) by {
        lemma_fadd_value(s1, t0);
        crate::rounding::lemma_rnd_exact(s0);
        lemma_rnd_monotone_at(magnitude(a1 + b0), units(s0));
    }
    let v = fast_two_sum(s0, c);
    law_fast_two_sum_exact(s0, c);
    lemma_fadd_relative(s0, c);
    let w = fadd(t1, v.1);
    lemma_fadd_relative(t1, v.1);
    lemma_spread_tail(h, l, a0, a1, b0, b1, cc, scaled(v.0), scaled(v.1), scaled(w));
    assert(units(w) <= units(v.0)) by {
        lemma_fadd_value(t1, v.1);
        crate::rounding::lemma_rnd_exact(v.0);
        lemma_rnd_monotone_at(magnitude(b1 + scaled(v.1)), units(v.0));
    }
    law_fast_two_sum_exact(v.0, w);
    assert(h + l == scaled(xh) + scaled(xl) + scaled(yh) + scaled(yl));
}

/// In `add_qq_tail` where the leading parts cancel, the first Fast2Sum is
/// exact: where `c` is the larger, the exact leading sum lies on its grid.
#[verifier::rlimit(60)]
proof fn lemma_add_qq_cancel_head(xh: u64, xl: u64, yh: u64, yl: u64, s0: u64, c: u64)
    requires
        enc_is_finite(xh),
        enc_is_finite(xl),
        enc_is_finite(yh),
        enc_is_finite(yl),
        enc_is_finite(s0),
        enc_is_finite(c),
        fadd(xh, xl) == xh,
        fadd(yh, yl) == yh,
        units(xh) < 3 * units(yh),
        units(yh) < 3 * units(xh),
        scaled(s0) == scaled(xh) + scaled(yh),
        units(c) <= 2 * magnitude(scaled(xl) + scaled(yl)),
        enc_is_finite(fast_two_sum(s0, c).0),
    ensures
        enc_is_finite(fast_two_sum(s0, c).1),
        scaled(fast_two_sum(s0, c).0) + scaled(fast_two_sum(s0, c).1) == scaled(s0) + scaled(c),
{
    if units(c) <= units(s0) {
        law_fast_two_sum_exact(s0, c);
        return;
    }
    if scaled(s0) == 0 {
        lemma_fast_two_sum_zero(s0, c);
        return;
    }
    lemma2_to64();
    lemma2_to64_rest();
    lemma_normalized_half_ulp(xh, xl);
    lemma_normalized_half_ulp(yh, yl);
    let sx = unit_shift(xh);
    let sy = unit_shift(yh);
    let sc = unit_shift(c);
    let px = pow2(sx) as int;
    let py = pow2(sy) as int;
    let pc = pow2(sc) as int;
    lemma_pow2_pos(sx);
    lemma_pow2_pos(sy);
    lemma_pow2_pos(sc);
    lemma_units_bounds(xh);
    lemma_units_bounds(yh);
    lemma_units_bounds(c);
    if exp_field(xh) >= 1 {
        lemma_pow2_adds(1, sx);
    }
    if exp_field(yh) >= 1 {
        lemma_pow2_adds(1, sy);
    }
    assert(units(xh) < 0x20_0000_0000_0000 * px);
    assert(units(yh) < 0x20_0000_0000_0000 * py);
    assert(px < 6 * py);
    assert(py < 6 * px);
    assert(units(c) <= px + py);
    // the grid of c is no coarser than those of x.hi and y.hi
    if sc > sx {
        lemma_pow2_le(sx, sc);
        assert(false);
    }
    if sc > sy {
        lemma_pow2_le(sy, sc);
        assert(false);
    }
    let dx = (sx - sc) as nat;
    let dy = (sy - sc) as nat;
    lemma_pow2_adds(dx, sc);
    lemma_pow2_adds(dy, sc);
    let gx = (significand(xh) * pow2(dx)) as int;
    let gy = (significand(yh) * pow2(dy)) as int;
    lemma_mul_is_associative(significand(xh) as int, pow2(dx) as int, pc);
    lemma_mul_is_associative(significand(yh) as int, pow2(dy) as int, pc);
    assert(units(xh) == gx * pc);
    assert(units(yh) == gy * pc);
    let jx: int = if sign_bit(xh) {
        -gx
    } else {
        gx
    };
    let jy: int = if sign_bit(yh) {
        -gy
    } else {
        gy
    };
    assert(scaled(xh) == jx * pc) by {
        lemma_mul_unary_negation(gx, pc);
    }
    assert(scaled(yh) == jy * pc) by {
        lemma_mul_unary_negation(gy, pc);
    }
    assert(scaled(s0) == (jx + jy) * pc) by {
        lemma_mul_is_distributive_add_other_way(pc, jx, jy);
    }
    lemma_fast_two_sum_grid(s0, c, jx + jy);
}

/// The correction of a rounded sum lies within half a unit in the last
/// place of any number `c` of the same value as the sum.
proof fn lemma_sum_tail_half_ulp(a: u64, b: u64, t0: u64, t1: u64, c: u64)
    requires
        enc_is_finite(a),
        enc_is_finite(b),
        enc_is_finite(t0),
        enc_is_finite(t1),
        enc_is_finite(c),
        t0 == fadd(a, b),
        scaled(t0) + scaled(t1) == scaled(a) + scaled(b),
        scaled(c) == scaled(t0),
    ensures
        2 * units(t1) <= pow2(unit_shift(c)),
{
    let l = scaled(a) + scaled(b);
    lemma_fadd_value(a, b);
    assert(units(c) == rnd(magnitude(l), 0));
    lemma_round_half_ulp(c, magnitude(l));
    assert(units(t1) == dist(units(c) as int, magnitude(l) as int));
}

/// Where the first Fast2Sum of `add_qq_tail` is exact and cancels to less
/// than half of `c`, the rest is exact too.
proof fn lemma_add_qq_cancel_twice(s0: u64, c: u64, t1: u64)
    requires
        enc_is_finite(s0),
        enc_is_finite(c),
        enc_is_finite(t1),
        2 * magnitude(scaled(s0) + scaled(c)) < units(c),
        2 * units(t1) <= pow2(unit_shift(c)),
        enc_is_finite(fast_two_sum(s0, c).0),
        enc_is_finite(fadd(t1, fast_two_sum(s0, c).1)),
        enc_is_finite(fast_two_sum(fast_two_sum(s0, c).0, fadd(t1, fast_two_sum(s0, c).1)).0),
    ensures
        ({
            let v = fast_two_sum(s0, c);
            let r = fast_two_sum(v.0, fadd(t1, v.1));
            scaled(r.0) + scaled(r.1) == scaled(s0) + scaled(c) + scaled(t1)
        }),
{
    let g = scaled(s0) + scaled(c);
    assert(scaled(c) + scaled(s0) == g);
    lemma_cancel_exact(c, s0);
    lemma_fadd_exact(s0, c);
    let v = fast_two_sum(s0, c);
    lemma_fneg_value(s0);
    assert(magnitude(scaled(v.0) + scaled(fneg(s0))) == units(c));
    crate::rounding::lemma_rnd_exact(c);
    crate::rounding::lemma_enc_of_units(c);
    lemma_fadd_exact(v.0, fneg(s0));
    let z = fsub(v.0, s0);
    lemma_fneg_value(z);
    crate::rounding::lemma_rnd_zero(0);
    lemma_pow2_pos(2098);
    assert(representable(0));
    lemma_fadd_exact(c, fneg(z));
    assert(scaled(v.1) == 0);
    crate::rounding::lemma_rnd_exact(t1);
    crate::rounding::lemma_enc_of_units(t1);
    lemma_fadd_exact(t1, v.1);
    let w = fadd(t1, v.1);
    assert(scaled(w) == scaled(t1));
    if g == 0 {
        lemma_fast_two_sum_zero(v.0, w);
    } else {
        assert(units(w) <= units(v.0));
        law_fast_two_sum_exact(v.0, w);
    }
}

/// The arithmetic of the end of `add_qq_tail` after the leading parts
/// cancel, where the first Fast2Sum, of exact sum `g`, does not cancel to
/// less than half of its second operand `b0`: the last Fast2Sum finds its
/// operands ordered, and the result errs by at most `8 u^2` of `g + b1`.
proof fn lemma_cancel_tail(g: int, l: int, b0: int, b1: int, v0: int, v1: int, ww: int)
    requires
        b0 + b1 == l,
        0x20_0000_0000_0000 * dist(b0, l) <= magnitude(l),
        2 * magnitude(g) >= magnitude(b0),
        v0 + v1 == g,
        0x20_0000_0000_0000 * dist(v0, g) <= magnitude(g),
        0x20_0000_0000_0000 * dist(ww, b1 + v1) <= magnitude(b1 + v1),
    ensures
        magnitude(b1 + v1) <= magnitude(v0),
        0x20_0000_0000_0000 * 0x20_0000_0000_0000 * dist(v0 + ww, g + b1) <= 8 * magnitude(g + b1),
{
    let u: int = 0x20_0000_0000_0000;
    let gg = magnitude(g) as int;
    let ll = magnitude(l) as int;
    assert(ll <= magnitude(b0) + dist(b0, l));
    assert(ll <= 2 * magnitude(b0));
    assert(ll <= 4 * gg);
    assert(u * magnitude(b1) <= ll);
    assert(u * magnitude(v1) <= gg);
    let m2 = magnitude(b1 + v1) as int;
    assert(m2 <= magnitude(b1) + magnitude(v1));
    assert(u * m2 <= 5 * gg);
    assert(magnitude(v0) >= gg - magnitude(v1));
    assert(m2 <= magnitude(v0));
    let e2 = ww - (b1 + v1);
    assert(v0 + ww - (g + b1) == e2);
    let d = dist(v0 + ww, g + b1);
    assert(d == magnitude(e2));
    assert(u * (u * d) <= u * m2);
    assert(u * (u * d) <= 5 * gg);
    assert(magnitude(g + b1) >= gg - magnitude(b1));
    assert(u * magnitude(b1) <= 4 * gg);
    assert(u * (u * d) <= 8 * magnitude(g + b1));
    assert(0x20_0000_0000_0000 * 0x20_0000_0000_0000 * d == u * (u * d)) by (nonlinear_arith)
        requires
            u == 0x20_0000_0000_0000,
    ;
}

/// `add_qq_tail` where the leading parts cancel to less than half of one
/// of them: the leading sum is exact, and so is the result, or it errs by
/// the rounding of the last sum only.
#[verifier::rlimit(40)]
#[verifier::spinoff_prover]
proof fn lemma_add_qq_cancel(xh: u64, xl: u64, yh: u64, yl: u64, s0: u64, s1: u64, t0: u64, t1: u64)
    requires
        add_qq_split(xh, xl, yh, yl, s0, s1, t0, t1),
        2 * magnitude(scaled(xh) + scaled(yh)) < units(xh) || 2 * magnitude(scaled(xh) + scaled(yh))
            < units(yh),
    ensures
        add_qq_bound(xh, xl, yh, yl, add_qq_tail(s0, s1, t0, t1)),
{
    lemma2_to64();
    lemma2_to64_rest();
    let u: int = 0x20_0000_0000_0000;
    assert(pow2(53) == u);
    lemma_pow2_adds(53, 53);
    assert(pow2(106) == u * u);
    let h = scaled(xh) + scaled(yh);
    assert(scaled(s0) == h && scaled(s1) == 0) by {
        if 2 * magnitude(h) < units(xh) {
            lemma_cancel_exact(xh, yh);
        } else {
            lemma_cancel_exact(yh, xh);
            assert(scaled(yh) + scaled(xh) == h);
        }
        lemma_fadd_exact(xh, yh);
    }
    assert(units(xh) < 3 * units(yh));
    assert(units(yh) < 3 * units(xh));
    let l = scaled(xl) + scaled(yl);
    let b0 = scaled(t0);
    let b1 = scaled(t1);
    lemma_fadd_relative(xl, yl);
    assert(magnitude(l) <= 2 * units(t0));
    // c is t0
    let c = fadd(s1, t0);
    assert(scaled(c) == b0) by {
        crate::rounding::lemma_rnd_exact(t0);
        crate::rounding::lemma_enc_of_units(t0);
        lemma_fadd_exact(s1, t0);
    }
    assert(units(c) == units(t0));
    lemma_add_qq_cancel_head(xh, xl, yh, yl, s0, c);
    let v = fast_two_sum(s0, c);
    let g = h + b0;
    let w = fadd(t1, v.1);
    let r = fast_two_sum(v.0, w);
    assert(h + l == scaled(xh) + scaled(xl) + scaled(yh) + scaled(yl));
    assert(h + l == g + b1);
    if 2 * magnitude(g) < units(c) {
        lemma_sum_tail_half_ulp(xl, yl, t0, t1, c);
        lemma_add_qq_cancel_twice(s0, c, t1);
        assert(scaled(r.0) + scaled(r.1) == h + l);
        lemma_mul_basics(u * u);
    } else {
        lemma_fadd_relative(s0, c);
        lemma_fadd_relative(t1, v.1);
        lemma_cancel_tail(g, l, b0, b1, scaled(v.0), scaled(v.1), scaled(w));
        assert(units(w) <= units(v.0)) by {
            lemma_fadd_value(t1, v.1);
            crate::rounding::lemma_rnd_exact(v.0);
            lemma_rnd_monotone_at(magnitude(b1 + scaled(v.1)), units(v.0));
        }
        law_fast_two_sum_exact(v.0, w);
    }
}

/// `add_qq_tail` errs by at most `8 u^2` of the exact sum.
proof fn lemma_add_qq_tail(xh: u64, xl: u64, yh: u64, yl: u64, s0: u64, s1: u64, t0: u64, t1: u64)
    requires
        add_qq_split(xh, xl, yh, yl, s0, s1, t0, t1),
    ensures
        add_qq_bound(xh, xl, yh, yl, add_qq_tail(s0, s1, t0, t1)),
{
    let h = scaled(xh) + scaled(yh);
    if 2 * magnitude(h) >= units(xh) && 2 * magnitude(h) >= units(yh) {
        lemma_add_qq_spread(xh, xl, yh, yl, s0, s1, t0, t1);
    } else {
        lemma_add_qq_cancel(xh, xl, yh, yl, s0, s1, t0, t1);
    }
}

/// No step of `add_qq` overflows: each rounded sum is finite.
pub open spec fn add_qq_steps_ok(xh: u64, xl: u64, yh: u64, yl: u64) -> bool {
    let s = two_sum(xh, yh);
    let t = two_sum(xl, yl);
    let c = fadd(s.1, t.0);
    let v = fast_two_sum(s.0, c);
    let w = fadd(t.1, v.1);
    &&& enc_is_finite(s.0)
    &&& enc_is_finite(fsub(s.0, yh))
    &&& enc_is_finite(t.0)
    &&& enc_is_finite(fsub(t.0, yl))
    &&& enc_is_finite(c)
    &&& enc_is_finite(v.0)
    &&& enc_is_finite(w)
    &&& enc_is_finite(fast_two_sum(v.0, w).0)
}

/// No step of `addfast_qq` overflows: each rounded sum is finite.
pub open spec fn addfast_qq_steps_ok(xh: u64, xl: u64, yh: u64, yl: u64) -> bool {
    let s = fast_two_sum(xh, yh);
    let t = two_sum(xl, yl);
    let c = fadd(s.1, t.0);
    let v = fast_two_sum(s.0, c);
    let w = fadd(t.1, v.1);
    &&& enc_is_finite(s.0)
    &&& enc_is_finite(t.0)
    &&& enc_is_finite(fsub(t.0, yl))
    &&& enc_is_finite(c)
    &&& enc_is_finite(v.0)
    &&& enc_is_finite(w)
    &&& enc_is_finite(fast_two_sum(v.0, w).0)
}

/// Adding two double-double numbers, `add_qq`, errs by at most `8 u^2` of
/// the exact sum (`u = 2^-53`), for every normalized `x` and `y`
/// (`x.hi == x.hi + x.lo` in binary64, and so for `y`) where no step
/// overflows.  Where the leading parts cancel to less than half of one of
/// them, their sum is exact, and each Fast2Sum is exact on the binary64
/// grid; otherwise each Fast2Sum finds its operands ordered.  In units of
/// `2^-1074`, with `r` the result and `z = x.hi + x.lo + y.hi + y.lo`:
/// `2^106 |(r.hi + r.lo) - z| <= 8 |z|`.
pub proof fn law_add_qq_relative_error(xh: u64, xl: u64, yh: u64, yl: u64)
    requires
        enc_is_finite(xh),
        enc_is_finite(xl),
        enc_is_finite(yh),
        enc_is_finite(yl),
        fadd(xh, xl) == xh,
        fadd(yh, yl) == yh,
        add_qq_steps_ok(xh, xl, yh, yl),
    ensures
        ({
            let r = add_qq_spec((xh, xl), (yh, yl));
            let z = scaled(xh) + scaled(xl) + scaled(yh) + scaled(yl);
            pow2(106) * dist(scaled(r.0) + scaled(r.1), z) <= 8 * magnitude(z)
        }),
{
    let s = two_sum(xh, yh);
    let t = two_sum(xl, yl);
    law_two_sum_exact(xh, yh);
    law_two_sum_exact(xl, yl);
    lemma_add_qq_tail(xh, xl, yh, yl, s.0, s.1, t.0, t.1);
}

/// Adding two double-double numbers with `|y.hi| <= |x.hi|`, `addfast_qq`,
/// errs by at most `8 u^2` of the exact sum (`u = 2^-53`), for every
/// normalized `x` and `y` where no step overflows: as
/// `law_add_qq_relative_error`, with Fast2Sum in place of the first 2Sum.
/// In units of `2^-1074`, with `r` the result and
/// `z = x.hi + x.lo + y.hi + y.lo`: `2^106 |(r.hi + r.lo) - z| <= 8 |z|`.
pub proof fn law_addfast_qq_relative_error(xh: u64, xl: u64, yh: u64, yl: u64)
    requires
        enc_is_finite(xh),
        enc_is_finite(xl),
        enc_is_finite(yh),
        enc_is_finite(yl),
        units(yh) <= units(xh),
        fadd(xh, xl) == xh,
        fadd(yh, yl) == yh,
        addfast_qq_steps_ok(xh, xl, yh, yl),
    ensures
        ({
            let r = addfast_qq_spec((xh, xl), (yh, yl));
            let z = scaled(xh) + scaled(xl) + scaled(yh) + scaled(yl);
            pow2(106) * dist(scaled(r.0) + scaled(r.1), z) <= 8 * magnitude(z)
        }),
{
    let s = fast_two_sum(xh, yh);
    let t = two_sum(xl, yl);
    law_fast_two_sum_exact(xh, yh);
    law_two_sum_exact(xl, yl);
    lemma_add_qq_tail(xh, xl, yh, yl, s.0, s.1, t.0, t.1);
}

// ---------------------------------------------------------------------------
// The order of the operands of a sum

/// `p` and `q` are the same number: equal encodings, or finite numbers of
/// equal value (which differ at most in the sign of a zero).
pub open spec fn same_number(p: u64, q: u64) -> bool {
    p == q || (enc_is_finite(p) && enc_is_finite(q) && scaled(p) == scaled(q))
}

/// Binary64 sums of the same numbers are the same number.
proof fn lemma_fadd_same(a: u64, b: u64, c: u64, d: u64)
    requires
        same_number(a, c),
        same_number(b, d),
    ensures
        same_number(fadd(a, b), fadd(c, d)),
{
    if enc_is_finite(a) && enc_is_finite(b) && enc_is_finite(c) && enc_is_finite(d) {
        let v = scaled(a) + scaled(b);
        crate::ops::lemma_round_signed_value(v, sign_bit(a) && sign_bit(b));
        crate::ops::lemma_round_signed_value(v, sign_bit(c) && sign_bit(d));
        if v == 0 {
            crate::rounding::lemma_rnd_zero(0);
            lemma_pow2_pos(2098);
        }
    }
}

/// Binary64 differences of the same numbers are the same number.
proof fn lemma_fsub_same(a: u64, b: u64, c: u64, d: u64)
    requires
        same_number(a, c),
        same_number(b, d),
    ensures
        same_number(fsub(a, b), fsub(c, d)),
{
    if b != d {
        lemma_fneg_value(b);
        lemma_fneg_value(d);
    }
    lemma_fadd_same(a, fneg(b), c, fneg(d));
}

/// The sum of two double-double numbers, `add_qq`, does not depend on the
/// order of its operands: `add_qq(x, y)` and `add_qq(y, x)` have the same
/// parts, up to the sign of a zero part.  This holds for finite parts where
/// both 2Sums of the leading parts and of the compensates are exact in
/// either order (their sums and `s - b` finite): the rounded sums are the
/// same, so are the exact errors, and every later step is a sum or
/// difference of the same numbers.
pub proof fn law_add_qq_commutative(xh: u64, xl: u64, yh: u64, yl: u64)
    requires
        enc_is_finite(xh),
        enc_is_finite(xl),
        enc_is_finite(yh),
        enc_is_finite(yl),
        enc_is_finite(fadd(xh, yh)),
        enc_is_finite(fsub(fadd(xh, yh), yh)),
        enc_is_finite(fsub(fadd(xh, yh), xh)),
        enc_is_finite(fadd(xl, yl)),
        enc_is_finite(fsub(fadd(xl, yl), yl)),
        enc_is_finite(fsub(fadd(xl, yl), xl)),
    ensures
        same_number(add_qq_spec((xh, xl), (yh, yl)).0, add_qq_spec((yh, yl), (xh, xl)).0),
        same_number(add_qq_spec((xh, xl), (yh, yl)).1, add_qq_spec((yh, yl), (xh, xl)).1),
{
    let s = two_sum(xh, yh);
    let s2 = two_sum(yh, xh);
    assert(s.0 == s2.0);
    law_two_sum_exact(xh, yh);
    law_two_sum_exact(yh, xh);
    let t = two_sum(xl, yl);
    let t2 = two_sum(yl, xl);
    assert(t.0 == t2.0);
    law_two_sum_exact(xl, yl);
    law_two_sum_exact(yl, xl);
    let c = fadd(s.1, t.0);
    let c2 = fadd(s2.1, t2.0);
    lemma_fadd_same(s.1, t.0, s2.1, t2.0);
    let v = fast_two_sum(s.0, c);
    let v2 = fast_two_sum(s2.0, c2);
    lemma_fadd_same(s.0, c, s2.0, c2);
    lemma_fsub_same(v.0, s.0, v2.0, s2.0);
    lemma_fsub_same(c, fsub(v.0, s.0), c2, fsub(v2.0, s2.0));
    let w = fadd(t.1, v.1);
    let w2 = fadd(t2.1, v2.1);
    lemma_fadd_same(t.1, v.1, t2.1, v2.1);
    let r = fast_two_sum(v.0, w);
    let r2 = fast_two_sum(v2.0, w2);
    lemma_fadd_same(v.0, w, v2.0, w2);
    lemma_fsub_same(r.0, v.0, r2.0, v2.0);
    lemma_fsub_same(w, fsub(r.0, v.0), w2, fsub(r2.0, v2.0));
}

// ---------------------------------------------------------------------------
// Identities: multiplying by one, adding zero or the negation

/// One has the value `2^1074` units, and zero the value zero.
proof fn lemma_one_zero_values()
    ensures
        enc_is_finite(one()),
        scaled(one()) == pow2(1074),
        enc_is_finite(0u64),
        scaled(0u64) == 0,
{
    lemma2_to64();
    lemma2_to64_rest();
    assert(exp_field(0u64) == 0);
    lemma_units_bounds(0u64);
    assert(exp_field(one()) == 1023);
    assert(significand(one()) == pow2(52));
    lemma_pow2_adds(52, 1022);
}

/// A product or fused multiply-add whose exact value is `w * 2^1074` for
/// the value `w` of a finite number rounds to that value, whatever sign a
/// zero takes.
proof fn lemma_round_value_of(b: u64, w: int, zneg: bool)
    requires
        enc_is_finite(b),
        w == scaled(b),
    ensures
        enc_is_finite(round_signed(w * pow2(1074), -1074, zneg)),
        scaled(round_signed(w * pow2(1074), -1074, zneg)) == w,
{
    crate::ops::lemma_round_signed_shift(w, zneg);
    crate::rounding::lemma_rnd_exact(b);
    crate::rounding::lemma_enc_of_units(b);
    crate::ops::lemma_round_exact(w, zneg);
}

/// Fast2Sum of the values of a normalized pair gives them back.
proof fn lemma_normalized_pair_sum(xh: u64, xl: u64, c0: u64, cl3: u64)
    requires
        enc_is_finite(xh),
        enc_is_finite(xl),
        fadd(xh, xl) == xh,
        enc_is_finite(c0),
        enc_is_finite(cl3),
        scaled(c0) == scaled(xh),
        scaled(cl3) == scaled(xl),
    ensures
        enc_is_finite(fast_two_sum(c0, cl3).0),
        enc_is_finite(fast_two_sum(c0, cl3).1),
        scaled(fast_two_sum(c0, cl3).0) == scaled(xh),
        scaled(fast_two_sum(c0, cl3).1) == scaled(xl),
{
    let v = scaled(xh) + scaled(xl);
    lemma_normalized_half_ulp(xh, xl);
    lemma_pow2_pos(53);
    lemma_mul_inequality(1, pow2(53) as int, units(xl) as int);
    assert(units(xl) <= units(xh));
    assert(units(cl3) == units(xl) && units(c0) == units(xh));
    assert(units(cl3) <= units(c0));
    crate::ops::lemma_round_signed_value(v, sign_bit(xh) && sign_bit(xl));
    crate::ops::lemma_round_signed_value(v, sign_bit(c0) && sign_bit(cl3));
    assert(fadd(c0, cl3) == round_signed(v, 0, sign_bit(c0) && sign_bit(cl3)));
    law_fast_two_sum_exact(c0, cl3);
}

/// Multiplying a normalized double-double number by one, on either side,
/// `mul_qq`, gives it back: every product and fused multiply-add is exact,
/// and the final Fast2Sum finds its operands ordered.  With `r` the
/// result, `r.hi == x.hi` and `r.lo == x.lo` in value.
pub proof fn law_mul_qq_one(xh: u64, xl: u64)
    requires
        enc_is_finite(xh),
        enc_is_finite(xl),
        fadd(xh, xl) == xh,
    ensures
        ({
            let r = mul_qq_spec((xh, xl), (one(), 0u64));
            &&& enc_is_finite(r.0)
            &&& enc_is_finite(r.1)
            &&& scaled(r.0) == scaled(xh)
            &&& scaled(r.1) == scaled(xl)
        }),
        ({
            let r = mul_qq_spec((one(), 0u64), (xh, xl));
            &&& enc_is_finite(r.0)
            &&& enc_is_finite(r.1)
            &&& scaled(r.0) == scaled(xh)
            &&& scaled(r.1) == scaled(xl)
        }),
{
    let h = scaled(xh);
    let l = scaled(xl);
    let p = pow2(1074) as int;
    lemma_one_zero_values();
    lemma_mul_basics(p);
    lemma_mul_basics(h);
    lemma_mul_basics(l);
    lemma_mul_is_commutative(h, p);
    lemma_mul_is_commutative(l, p);
    lemma_mul_unary_negation(h, p);
    // x * 1
    let c0 = fmul(xh, one());
    lemma_round_value_of(xh, h, sign_bit(xh) != sign_bit(one()));
    lemma_fneg_value(c0);
    let c1 = ffma(xh, one(), fneg(c0));
    assert(h * p + scaled(fneg(c0)) * p == 0 * p);
    lemma_round_value_of(0u64, 0, (sign_bit(xh) != sign_bit(one())) && sign_bit(fneg(c0)));
    let tl0 = fmul(xl, 0u64);
    lemma_round_value_of(0u64, 0, sign_bit(xl) != sign_bit(0u64));
    let tl1 = ffma(xh, 0u64, tl0);
    lemma_round_value_of(0u64, 0, (sign_bit(xh) != sign_bit(0u64)) && sign_bit(tl0));
    let cl2 = ffma(xl, one(), tl1);
    lemma_round_value_of(xl, l, (sign_bit(xl) != sign_bit(one())) && sign_bit(tl1));
    crate::rounding::lemma_rnd_exact(xl);
    crate::rounding::lemma_enc_of_units(xl);
    lemma_fadd_exact(c1, cl2);
    lemma_normalized_pair_sum(xh, xl, c0, fadd(c1, cl2));
    // 1 * x
    let d0 = fmul(one(), xh);
    lemma_round_value_of(xh, h, sign_bit(one()) != sign_bit(xh));
    lemma_fneg_value(d0);
    let d1 = ffma(one(), xh, fneg(d0));
    assert(p * h + scaled(fneg(d0)) * p == 0 * p);
    lemma_round_value_of(0u64, 0, (sign_bit(one()) != sign_bit(xh)) && sign_bit(fneg(d0)));
    let ul0 = fmul(0u64, xl);
    lemma_round_value_of(0u64, 0, sign_bit(0u64) != sign_bit(xl));
    let ul1 = ffma(one(), xl, ul0);
    lemma_round_value_of(xl, l, (sign_bit(one()) != sign_bit(xl)) && sign_bit(ul0));
    let dl2 = ffma(0u64, xh, ul1);
    lemma_round_value_of(xl, l, (sign_bit(0u64) != sign_bit(xh)) && sign_bit(ul1));
    lemma_fadd_exact(d1, dl2);
    lemma_normalized_pair_sum(xh, xl, d0, fadd(d1, dl2));
}

/// A finite binary64 sum whose exact value is that of a finite number `b`
/// is that value.
proof fn lemma_fadd_to_value(x: u64, y: u64, b: u64)
    requires
        enc_is_finite(x),
        enc_is_finite(y),
        enc_is_finite(b),
        scaled(x) + scaled(y) == scaled(b),
    ensures
        enc_is_finite(fadd(x, y)),
        scaled(fadd(x, y)) == scaled(b),
{
    crate::rounding::lemma_rnd_exact(b);
    crate::rounding::lemma_enc_of_units(b);
    lemma_fadd_exact(x, y);
}

/// Adding zero to a normalized double-double number, `add_qq`, gives it
/// back, and adding its negation gives zero: each 2Sum and Fast2Sum is
/// exact.  With `r` the result, `r.hi == x.hi` and `r.lo == x.lo` in value
/// for `y == 0`, and `r.hi == r.lo == 0` in value for `y == -x`.
pub proof fn law_add_qq_zero_and_negation(xh: u64, xl: u64)
    requires
        enc_is_finite(xh),
        enc_is_finite(xl),
        fadd(xh, xl) == xh,
    ensures
        ({
            let r = add_qq_spec((xh, xl), (0u64, 0u64));
            &&& enc_is_finite(r.0)
            &&& enc_is_finite(r.1)
            &&& scaled(r.0) == scaled(xh)
            &&& scaled(r.1) == scaled(xl)
        }),
        ({
            let r = add_qq_spec((xh, xl), (fneg(xh), fneg(xl)));
            &&& enc_is_finite(r.0)
            &&& enc_is_finite(r.1)
            &&& scaled(r.0) == 0
            &&& scaled(r.1) == 0
        }),
{
    lemma_one_zero_values();
    let z = 0u64;
    lemma_fneg_value(z);
    // y == 0
    let s = two_sum(xh, z);
    lemma_fadd_to_value(xh, z, xh);
    lemma_fadd_to_value(s.0, fneg(z), xh);
    law_two_sum_exact(xh, z);
    let t = two_sum(xl, z);
    lemma_fadd_to_value(xl, z, xl);
    lemma_fadd_to_value(t.0, fneg(z), xl);
    law_two_sum_exact(xl, z);
    let c = fadd(s.1, t.0);
    lemma_fadd_to_value(s.1, t.0, xl);
    lemma_normalized_pair_sum(xh, xl, s.0, c);
    let v = fast_two_sum(s.0, c);
    let w = fadd(t.1, v.1);
    lemma_fadd_to_value(t.1, v.1, xl);
    lemma_normalized_pair_sum(xh, xl, v.0, w);
    // y == -x
    lemma_fneg_value(xh);
    lemma_fneg_value(xl);
    let s = two_sum(xh, fneg(xh));
    lemma_fadd_to_value(xh, fneg(xh), z);
    lemma_fneg_value(fneg(xh));
    lemma_fadd_to_value(s.0, fneg(fneg(xh)), xh);
    law_two_sum_exact(xh, fneg(xh));
    let t = two_sum(xl, fneg(xl));
    lemma_fadd_to_value(xl, fneg(xl), z);
    lemma_fneg_value(fneg(xl));
    lemma_fadd_to_value(t.0, fneg(fneg(xl)), xl);
    law_two_sum_exact(xl, fneg(xl));
    let c = fadd(s.1, t.0);
    lemma_fadd_to_value(s.1, t.0, z);
    lemma_fast_two_sum_zero(s.0, c);
    let v = fast_two_sum(s.0, c);
    let w = fadd(t.1, v.1);
    lemma_fadd_to_value(t.1, v.1, z);
    lemma_fast_two_sum_zero(v.0, w);
}

// ---------------------------------------------------------------------------
// Squares

/// The arithmetic of `square_q`, in units of `2^-2148`, above the
/// subnormal range: with `a = x.hi^2` at least half the slop `t` of a
/// rounding, its rounding `y0p`, the rounding `y1p` of `a - y0p`, the
/// product `m` of the doubled compensate and `x.hi`, and the rounding
/// `ylop` of `v = m + y1p`, the correction is smaller than the rounded
/// square, which is positive.
proof fn lemma_square_bounds(a: int, t: int, y0p: int, y1p: int, m: int, v: int, ylop: int)
    requires
        t > 0,
        t <= 2 * a,
        0x20_0000_0000_0000 * dist(y0p, a) <= a + t,
        0x20_0000_0000_0000 * dist(y1p, a - y0p) <= magnitude(a - y0p) + t,
        0x20_0000_0000_0000 * magnitude(m) <= 2 * a,
        v == m + y1p,
        0x20_0000_0000_0000 * dist(ylop, v) <= magnitude(v) + t,
    ensures
        y0p > 0,
        magnitude(ylop) < y0p,
{
    let u: int = 0x20_0000_0000_0000;
    let e = a - y0p;
    assert(u * magnitude(e) <= 3 * a);
    assert(magnitude(y1p) <= magnitude(e) + dist(y1p, e));
    assert(u * magnitude(y1p) <= 6 * a);
    assert(magnitude(v) <= magnitude(m) + magnitude(y1p));
    assert(u * magnitude(v) <= 8 * a);
    assert(magnitude(ylop) <= magnitude(v) + dist(ylop, v));
    assert(u * magnitude(ylop) <= 11 * a);
    assert(u * y0p >= u * a - 3 * a);
}

/// A product or fused multiply-add whose exact value `v` (in units of
/// `2^-2148`) is below `2^1127` in magnitude rounds to a whole number of
/// units of `2^-1074`: `v / 2^1074` rounded to nearest, ties to even.
proof fn lemma_round_tiny(v: int, zneg: bool)
    requires
        magnitude(v) < pow2(1127),
    ensures
        enc_is_finite(round_signed(v, -1074, zneg)),
        scaled(round_signed(v, -1074, zneg)) == with_sign(v, rne_shr(magnitude(v), 1074)),
{
    lemma2_to64();
    lemma2_to64_rest();
    let m = magnitude(v);
    if v == 0 {
        lemma_enc_parts(zneg, 0, 0);
        lemma_mul_basics(pow2(0) as int);
        crate::ieee::lemma_rne_shr_bounds(0, 1074);
        lemma_pow2_pos(1074);
        assert(0nat / pow2(1074) == 0) by {
            lemma_div_basics(pow2(1074) as int);
        }
    } else {
        lemma_bitlen_bounds(m);
        if bitlen(m) > 1127 {
            lemma_pow2_le(1127, (bitlen(m) - 1) as nat);
        }
        assert(grid(m, -1074) == 0);
        assert(rnd(m, -1074) == rne_shr(m, 1074) * pow2(0));
        crate::ieee::lemma_rne_shr_bounds(m, 1074);
        lemma_pow2_pos(1074);
        assert(m / pow2(1074) < pow2(53)) by {
            lemma_pow2_adds(53, 1074);
            lemma_multiply_divide_lt(m as int, pow2(1074) as int, pow2(53) as int);
            lemma_mul_is_commutative(pow2(1074) as int, pow2(53) as int);
        }
        assert(!overflows(rnd(m, -1074))) by {
            lemma_pow2_le(54, 2098);
            lemma_pow2_adds(1, 53);
        }
        lemma_round_enc_value(v < 0, m, -1074);
    }
}

/// A magnitude of at most half a unit rounds to zero units, ties to even.
proof fn lemma_rne_half_unit(n: nat)
    requires
        n <= pow2(1073),
    ensures
        rne_shr(n, 1074) == 0,
{
    lemma_pow2_adds(1, 1073);
    lemma_pow2_pos(1073);
    lemma2_to64();
    lemma_mul_basics(pow2(1074) as int);
    crate::rounding::lemma_rne_shr_decomp(n, 0, n, 1074);
}

/// The last steps of `square_q` where `x.hi^2` is at least `2^-1023`:
/// the correction is smaller than the rounded square, which is positive.
#[verifier::rlimit(40)]
proof fn lemma_square_wide(xh: u64, d: u64)
    requires
        enc_is_finite(xh),
        enc_is_finite(d),
        2 * (scaled(xh) * scaled(xh)) >= pow2(1126),
        0x20_0000_0000_0000 * magnitude(scaled(d) * scaled(xh)) <= 2 * (scaled(xh) * scaled(xh)),
        enc_is_finite(two_prod(xh, xh).0),
        enc_is_finite(two_prod(xh, xh).1),
        enc_is_finite(ffma(d, xh, two_prod(xh, xh).1)),
    ensures
        scaled(two_prod(xh, xh).0) > 0,
        units(ffma(d, xh, two_prod(xh, xh).1)) < units(two_prod(xh, xh).0),
{
    lemma2_to64();
    lemma2_to64_rest();
    let p = pow2(1074) as int;
    lemma_pow2_pos(1074);
    lemma_pow2_pos(1126);
    let a = scaled(xh) * scaled(xh);
    let y = two_prod(xh, xh);
    let ylo = ffma(d, xh, y.1);
    let y0p = scaled(y.0) * p;
    let y1p = scaled(y.1) * p;
    lemma_fneg_value(y.0);
    assert(a + scaled(fneg(y.0)) * p == a - y0p) by {
        lemma_mul_unary_negation(scaled(y.0), p);
    }
    lemma_fmul_relative(xh, xh);
    lemma_ffma_relative(xh, xh, fneg(y.0));
    lemma_ffma_relative(d, xh, y.1);
    lemma_square_bounds(a, pow2(1126) as int, y0p, y1p, scaled(d) * scaled(xh), scaled(d) * scaled(xh) + y1p, scaled(ylo) * p);
    assert(units(ylo) < units(y.0)) by {
        lemma_magnitude_mul(scaled(ylo), p);
        lemma_magnitude_mul(scaled(y.0), p);
        lemma_mul_strict_inequality_converse(units(ylo) as int, units(y.0) as int, p);
    }
    assert(scaled(y.0) > 0) by {
        if scaled(y.0) <= 0 {
            lemma_mul_inequality(scaled(y.0), 0, p);
        }
    }
}

/// The last steps of `square_q` where `x.hi^2` is below `2^-1023`: the
/// rounded square is a whole number of units of `2^-1074`, and its error
/// and the correction round to zero.
#[verifier::rlimit(40)]
proof fn lemma_square_tiny(xh: u64, d: u64)
    requires
        enc_is_finite(xh),
        enc_is_finite(d),
        0 <= scaled(xh) * scaled(xh),
        2 * (scaled(xh) * scaled(xh)) < pow2(1126),
        0x20_0000_0000_0000 * magnitude(scaled(d) * scaled(xh)) <= 2 * (scaled(xh) * scaled(xh)),
    ensures
        enc_is_finite(two_prod(xh, xh).0),
        scaled(two_prod(xh, xh).0) >= 0,
        enc_is_finite(ffma(d, xh, two_prod(xh, xh).1)),
        scaled(ffma(d, xh, two_prod(xh, xh).1)) == 0,
{
    lemma2_to64();
    let p = pow2(1074) as int;
    lemma_pow2_pos(1074);
    let a = scaled(xh) * scaled(xh);
    let m = scaled(d) * scaled(xh);
    let y = two_prod(xh, xh);
    assert(a < pow2(1127)) by {
        lemma_pow2_adds(1, 1126);
    }
    assert(y.0 == round_signed(a, -1074, false));
    lemma_round_tiny(a, false);
    let y0p = scaled(y.0) * p;
    assert(scaled(y.0) == rne_shr(a as nat, 1074));
    assert(dist(a, y0p) <= pow2(1073)) by {
        crate::rounding::lemma_rne_nearest(a as nat, 1074, 0);
    }
    lemma_fneg_value(y.0);
    assert(a + scaled(fneg(y.0)) * p == a - y0p) by {
        lemma_mul_unary_negation(scaled(y.0), p);
    }
    assert(magnitude(a - y0p) < pow2(1127)) by {
        lemma_pow2_le(1073, 1127);
        lemma_pow2_adds(1, 1126);
        lemma_pow2_adds(1, 1073);
        lemma_pow2_le(1074, 1126);
    }
    lemma_round_tiny(a - y0p, false && sign_bit(fneg(y.0)));
    lemma_rne_half_unit(magnitude(a - y0p));
    assert(scaled(y.1) == 0);
    assert(magnitude(m) <= pow2(1073)) by {
        lemma2_to64_rest();
        lemma_pow2_adds(53, 1073);
        lemma_mul_strict_inequality_converse(magnitude(m) as int, pow2(1073) as int, pow2(53) as int);
        lemma_mul_is_commutative(magnitude(m) as int, pow2(53) as int);
    }
    assert(scaled(d) * scaled(xh) + scaled(y.1) * p == m) by {
        lemma_mul_basics(p);
    }
    assert(magnitude(m) < pow2(1127)) by {
        lemma_pow2_le(1073, 1126);
        lemma_pow2_adds(1, 1126);
    }
    lemma_round_tiny(m, (sign_bit(d) != sign_bit(xh)) && sign_bit(y.1));
    lemma_rne_half_unit(magnitude(m));
}

/// The square of a normalized double-double number (`x.hi == x.hi + x.lo`
/// in binary64), `square_q`, is not negative, and is normalized where it
/// is not zero: its correction is no larger than its leading part, so that
/// the final Fast2Sum is exact, and the binary64 sum of the two parts is
/// the leading part.  This holds where no step overflows.  Where `x.hi^2`
/// is below `2^-1023`, the rounded square and its correction are whole
/// numbers of units of `2^-1074` and the correction rounds to zero.
#[verifier::rlimit(80)]
pub proof fn law_square_q_sign_and_normalized(xh: u64, xl: u64)
    requires
        enc_is_finite(xh),
        enc_is_finite(xl),
        fadd(xh, xl) == xh,
        enc_is_finite(two_prod(xh, xh).0),
        enc_is_finite(two_prod(xh, xh).1),
        enc_is_finite(ffma(fadd(xl, xl), xh, two_prod(xh, xh).1)),
        enc_is_finite(square_q_spec((xh, xl)).0),
    ensures
        enc_is_finite(square_q_spec((xh, xl)).1),
        scaled(square_q_spec((xh, xl)).0) >= 0,
        scaled(square_q_spec((xh, xl)).0) + scaled(square_q_spec((xh, xl)).1) != 0 ==> fadd(
            square_q_spec((xh, xl)).0,
            square_q_spec((xh, xl)).1,
        ) == square_q_spec((xh, xl)).0,
{
    lemma2_to64();
    lemma2_to64_rest();
    let p = pow2(1074) as int;
    lemma_pow2_pos(1074);
    lemma_pow2_pos(1126);
    let h = scaled(xh);
    let l = scaled(xl);
    let a = h * h;
    let t = pow2(1126) as int;
    let ux = units(xh) as int;
    assert(h * h >= 0) by (nonlinear_arith);
    assert(a == ux * ux) by {
        lemma_magnitude_mul(h, h);
    }
    // the doubled compensate is exact
    let d = fadd(xl, xl);
    lemma_normalized_half_ulp(xh, xl);
    assert(scaled(d) == 2 * l) by {
        let sl = unit_shift(xl);
        let gl = significand(xl);
        assert(gl < pow2(53)) by {
            assert(xl % 0x10_0000_0000_0000 < 0x10_0000_0000_0000) by (bit_vector);
        }
        lemma_pow2_adds(1, sl);
        lemma_mul_is_associative(gl as int, 2, pow2(sl) as int);
        lemma_mul_is_commutative(gl as int, 2);
        lemma_mul_is_associative(2, gl as int, pow2(sl) as int);
        lemma_representable_small(gl, sl + 1);
        assert(magnitude(l + l) == gl * pow2(sl + 1));
        crate::rounding::lemma_enc_of_units(xh);
        assert(2 * units(xl) <= units(xh)) by {
            lemma_pow2_pos(53);
            lemma_mul_inequality(2, pow2(53) as int, units(xl) as int);
        }
        lemma_fadd_exact(xl, xl);
    }
    // the product of the doubled compensate and x.hi
    let m = scaled(d) * h;
    assert(0x20_0000_0000_0000 * magnitude(m) <= 2 * a) by {
        lemma_magnitude_mul(scaled(d), h);
        assert(magnitude(scaled(d)) == 2 * units(xl));
        lemma_mul_inequality((0x20_0000_0000_0000 * units(xl)) as int, ux, ux);
        lemma_mul_is_associative(0x20_0000_0000_0000, units(xl) as int, ux);
        lemma_mul_is_associative(2, units(xl) as int, ux);
        lemma_mul_is_associative(0x20_0000_0000_0000, (2 * units(xl)) as int, ux);
    }
    let y = two_prod(xh, xh);
    let ylo = ffma(d, xh, y.1);
    if 2 * a >= t {
        lemma_square_wide(xh, d);
    } else {
        lemma_square_tiny(xh, d);
        if scaled(y.0) == 0 {
            lemma_fast_two_sum_zero(y.0, ylo);
            return;
        }
    }
    law_fast_two_sum_exact(y.0, ylo);
    law_fast_two_sum_normalized(y.0, ylo);
    lemma_fadd_value(y.0, ylo);
}

} // verus!
