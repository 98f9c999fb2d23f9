//! The Euclidean norm and the reciprocal square root.
use crate::arith::{
    addfast_dd, addfast_qq, addfast_qq_spec, div_dd_spec, fast_two_sum, mul_pow2, one, parts,
    reciprocal_d, sqrt_q, sqrt_q_spec, square_q, square_q_spec,
};
use crate::ieee::{
    enc_is_finite, enc_is_infinite, enc_le, enc_lt, exp_field, fields, frac_field, le_enc, lemma_units_bounds, lt_enc,
    scaled, sign_bit, significand, unit_shift, units,
};
use crate::ops::{
    abs_enc, add_enc, div_enc, fabs, fadd, fdiv, ffma, fma_enc, fmul, fneg, fsqrt, lemma_fabs,
    lemma_round_exact, lemma_round_signed_shift, magnitude, neg_enc, round_signed, sqrt_enc,
};
use crate::rounding::{lemma_enc_parts, lemma_pow2_le, lemma_representable_small, overflows, representable};
use crate::Compensated;
use crate::Df64;
use vstd::arithmetic::mul::*;
use vstd::arithmetic::power2::*;
use vstd::prelude::*;

verus! {

/// 2^512: above it, squares may overflow.
pub const LARGE: u64 = 0x5ff0_0000_0000_0000u64;

/// 2^-512: below it, squares may underflow.
pub const SMALL: u64 = 0x1ff0_0000_0000_0000u64;

/// Positive infinity.
pub const INFINITY: u64 = 0x7ff0_0000_0000_0000u64;

/// Both parts times the binary64 number `p`.
pub open spec fn scale(x: (u64, u64), p: u64) -> (u64, u64) {
    (fmul(x.0, p), fmul(x.1, p))
}

/// `sqrt(x^2 + y^2)` without scaling.
pub open spec fn hypot_plain(x: (u64, u64), y: (u64, u64)) -> (u64, u64) {
    sqrt_q_spec(addfast_qq_spec(square_q_spec(x), square_q_spec(y)))
}

/// `sqrt(big^2 + small^2)`, where `big` has the larger leading part in
/// magnitude `magn`: scaled down by 2^512 where `magn` is at least 2^512,
/// and up where it is below 2^-512, so that the squares neither overflow
/// nor underflow.
pub open spec fn hypot_ordered(big: (u64, u64), small: (u64, u64), magn: u64) -> (u64, u64) {
    if enc_le(LARGE, magn) {
        if enc_is_infinite(magn) {
            (INFINITY, 0)
        } else {
            scale(hypot_plain(scale(big, SMALL), scale(small, SMALL)), LARGE)
        }
    } else if enc_lt(magn, SMALL) {
        scale(hypot_plain(scale(big, LARGE), scale(small, LARGE)), SMALL)
    } else {
        hypot_plain(big, small)
    }
}

/// The Euclidean norm `sqrt(x^2 + y^2)`, ordered by the magnitudes of the
/// leading parts.
pub open spec fn hypot_spec(x: (u64, u64), y: (u64, u64)) -> (u64, u64) {
    if enc_le(fabs(y.0), fabs(x.0)) {
        hypot_ordered(x, y, fabs(x.0))
    } else {
        hypot_ordered(y, x, fabs(y.0))
    }
}

/// `sqrt(x^2 + y^2)` without scaling.
pub fn hypot_unscaled(x: Df64, y: Df64) -> (r: Df64)
    ensures
        parts(r) == hypot_plain(parts(x), parts(y)),
{
    let x2 = square_q(x);
    let y2 = square_q(y);
    sqrt_q(addfast_qq(x2, y2))
}

fn hypot_ordered_exec(big: Df64, small: Df64, magn: u64) -> (r: Df64)
    ensures
        parts(r) == hypot_ordered(parts(big), parts(small), magn),
{
    if le_enc(LARGE, magn) {
        let (_s, e, f) = fields(magn);
        if e == 0x7ff && f == 0 {
            return Compensated::new(INFINITY, 0);
        }
        let r = hypot_unscaled(mul_pow2(big, SMALL), mul_pow2(small, SMALL));
        mul_pow2(r, LARGE)
    } else if lt_enc(magn, SMALL) {
        let r = hypot_unscaled(mul_pow2(big, LARGE), mul_pow2(small, LARGE));
        mul_pow2(r, SMALL)
    } else {
        hypot_unscaled(big, small)
    }
}

/// The Euclidean norm `sqrt(x^2 + y^2)`, avoiding overflow and underflow
/// of the squares by scaling with powers of two.
pub fn hypot(x: Df64, y: Df64) -> (r: Df64)
    ensures
        parts(r) == hypot_spec(parts(x), parts(y)),
{
    let x_magn = abs_enc(x.hi());
    let y_magn = abs_enc(y.hi());
    if le_enc(y_magn, x_magn) {
        hypot_ordered_exec(x, y, x_magn)
    } else {
        hypot_ordered_exec(y, x, y_magn)
    }
}

/// `2^512` and `2^-512` in units of `2^-1074`.
proof fn lemma_scale_values()
    ensures
        enc_is_finite(LARGE),
        !sign_bit(LARGE),
        scaled(LARGE) == pow2(1586),
        enc_is_finite(SMALL),
        !sign_bit(SMALL),
        scaled(SMALL) == pow2(562),
{
    lemma2_to64();
    lemma2_to64_rest();
    assert(exp_field(LARGE) == 1535 && frac_field(LARGE) == 0 && !sign_bit(LARGE));
    assert(exp_field(SMALL) == 511 && frac_field(SMALL) == 0 && !sign_bit(SMALL));
    lemma_pow2_adds(52, 1534);
    lemma_pow2_adds(52, 510);
}

/// A binary64 product whose exact value is `w * 2^1074`, for a binary64
/// magnitude `|w|`, is `w`, and the zero of sign `zneg` where `w` is zero.
proof fn lemma_product_exact(w: int, zneg: bool)
    requires
        representable(magnitude(w)),
        !overflows(magnitude(w)),
    ensures
        round_signed(w * pow2(1074), -1074, zneg) == round_signed(w, 0, zneg),
        enc_is_finite(round_signed(w, 0, zneg)),
        scaled(round_signed(w, 0, zneg)) == w,
        w == 0 ==> sign_bit(round_signed(w, 0, zneg)) == zneg,
{
    lemma_round_signed_shift(w, zneg);
    lemma_round_exact(w, zneg);
    if w == 0 {
        lemma2_to64();
        lemma_enc_parts(zneg, 0, 0);
    }
}

/// Scaling a finite number below `2^512` in magnitude up by `2^512` is
/// exact, and scaling it back down gives the same encoding.
proof fn lemma_scale_up_down(b: u64)
    requires
        enc_is_finite(b),
        units(b) < pow2(1586),
    ensures
        enc_is_finite(fmul(b, LARGE)),
        scaled(fmul(b, LARGE)) == scaled(b) * pow2(512),
        units(fmul(b, LARGE)) == units(b) * pow2(512),
        fmul(fmul(b, LARGE), SMALL) == b,
{
    lemma2_to64();
    lemma2_to64_rest();
    lemma_scale_values();
    let h = scaled(b);
    let sh = unit_shift(b);
    let sig = significand(b);
    lemma_pow2_pos(512);
    lemma_pow2_pos(1074);
    assert(sig < pow2(53)) by {
        assert(b % 0x10_0000_0000_0000 < 0x10_0000_0000_0000) by (bit_vector);
    }
    // up: the exact value h * 2^1586 is (h * 2^512) * 2^1074
    let w = h * pow2(512);
    assert(h * pow2(1586) == w * pow2(1074)) by {
        lemma_pow2_adds(512, 1074);
        lemma_mul_is_associative(h, pow2(512) as int, pow2(1074) as int);
    }
    assert(magnitude(w) == sig * pow2(sh + 512)) by {
        lemma_pow2_adds(sh, 512);
        lemma_mul_is_associative(sig as int, pow2(sh) as int, pow2(512) as int);
        if h < 0 {
            lemma_mul_unary_negation(units(b) as int, pow2(512) as int);
        }
    }
    lemma_representable_small(sig, sh + 512);
    assert(!overflows(magnitude(w))) by {
        lemma_mul_strict_inequality(units(b) as int, pow2(1586) as int, pow2(512) as int);
        lemma_pow2_adds(1586, 512);
        lemma_mul_is_associative(sig as int, pow2(sh) as int, pow2(512) as int);
        lemma_pow2_adds(sh, 512);
    }
    lemma_product_exact(w, sign_bit(b) != sign_bit(LARGE));
    let c = fmul(b, LARGE);
    assert(c == round_signed(w, 0, sign_bit(b)));
    assert(units(c) == units(b) * pow2(512)) by {
        lemma_mul_is_associative(sig as int, pow2(sh) as int, pow2(512) as int);
        lemma_pow2_adds(sh, 512);
    }
    // down: the exact value w * 2^562 is h * 2^1074
    assert(w * pow2(562) == h * pow2(1074)) by {
        lemma_pow2_adds(512, 562);
        lemma_mul_is_associative(h, pow2(512) as int, pow2(562) as int);
    }
    crate::rounding::lemma_rnd_exact(b);
    crate::rounding::lemma_enc_of_units(b);
    lemma_product_exact(h, sign_bit(c) != sign_bit(SMALL));
    if h != 0 {
        lemma_units_bounds(b);
    } else {
        lemma_units_bounds(b);
        lemma_enc_parts(sign_bit(b), 0, 0);
        crate::ieee::lemma_fields_determine(b, round_signed(h, 0, sign_bit(c)));
    }
}

/// `hypot` commutes with scaling by `2^512`: for normalized finite `x` and
/// `y` whose larger leading part in magnitude lies in `[1, 2^512)`,
/// `hypot(2^512 x, 2^512 y) == 2^512 hypot(x, y)`, part by part.  The
/// larger of the scaled arguments is at least `2^512`, so that `hypot`
/// scales them back down before it squares them.
pub proof fn law_hypot_scales(xh: u64, xl: u64, yh: u64, yl: u64)
    requires
        enc_is_finite(xh),
        enc_is_finite(xl),
        enc_is_finite(yh),
        enc_is_finite(yl),
        fadd(xh, xl) == xh,
        fadd(yh, yl) == yh,
        units(xh) < pow2(1586),
        units(yh) < pow2(1586),
        pow2(1074) <= units(xh) || pow2(1074) <= units(yh),
    ensures
        hypot_spec(scale((xh, xl), LARGE), scale((yh, yl), LARGE)) == scale(
            hypot_spec((xh, xl), (yh, yl)),
            LARGE,
        ),
{
    lemma2_to64();
    lemma_scale_values();
    crate::accuracy::lemma_normalized_half_ulp(xh, xl);
    crate::accuracy::lemma_normalized_half_ulp(yh, yl);
    lemma_pow2_pos(53);
    lemma_mul_inequality(1, pow2(53) as int, units(xl) as int);
    lemma_mul_inequality(1, pow2(53) as int, units(yl) as int);
    lemma_scale_up_down(xh);
    lemma_scale_up_down(xl);
    lemma_scale_up_down(yh);
    lemma_scale_up_down(yl);
    let x2 = scale((xh, xl), LARGE);
    let y2 = scale((yh, yl), LARGE);
    lemma_fabs(xh);
    lemma_fabs(yh);
    lemma_fabs(x2.0);
    lemma_fabs(y2.0);
    lemma_pow2_pos(512);
    // the order of the magnitudes is kept
    assert(enc_le(fabs(y2.0), fabs(x2.0)) == enc_le(fabs(yh), fabs(xh))) by {
        if units(yh) <= units(xh) {
            lemma_mul_inequality(units(yh) as int, units(xh) as int, pow2(512) as int);
        } else {
            lemma_mul_strict_inequality(units(xh) as int, units(yh) as int, pow2(512) as int);
        }
    }
    assert(scale(x2, SMALL) == (xh, xl));
    assert(scale(y2, SMALL) == (yh, yl));
    lemma_pow2_le(562, 1074);
    lemma_pow2_adds(1074, 512);
    if units(yh) <= units(xh) {
        lemma_mul_inequality(pow2(1074) as int, units(xh) as int, pow2(512) as int);
    } else {
        lemma_mul_inequality(pow2(1074) as int, units(yh) as int, pow2(512) as int);
    }
}

/// Scaling a finite number whose lowest significand bit weighs at least
/// `2^-562` down by `2^512` is exact, and scaling it back up gives the
/// same encoding.
proof fn lemma_scale_down_up(b: u64)
    requires
        enc_is_finite(b),
        unit_shift(b) >= 512 || units(b) == 0,
    ensures
        enc_is_finite(fmul(b, SMALL)),
        units(fmul(b, SMALL)) * pow2(512) == units(b),
        fmul(fmul(b, SMALL), LARGE) == b,
{
    lemma2_to64();
    lemma2_to64_rest();
    lemma_scale_values();
    let h = scaled(b);
    let sh = unit_shift(b);
    let sig = significand(b);
    lemma_pow2_pos(512);
    lemma_pow2_pos(1074);
    assert(sig < pow2(53)) by {
        assert(b % 0x10_0000_0000_0000 < 0x10_0000_0000_0000) by (bit_vector);
    }
    let d: nat = if sh >= 512 {
        (sh - 512) as nat
    } else {
        0
    };
    let mw: nat = if units(b) == 0 {
        0
    } else {
        sig * pow2(d)
    };
    assert(mw * pow2(512) == units(b)) by {
        if units(b) != 0 {
            lemma_pow2_adds(d, 512);
            lemma_mul_is_associative(sig as int, pow2(d) as int, pow2(512) as int);
        }
    }
    let w: int = if h < 0 {
        -mw
    } else {
        mw as int
    };
    assert(w * pow2(512) == h) by {
        lemma_mul_unary_negation(mw as int, pow2(512) as int);
    }
    // down: the exact value h * 2^562 is w * 2^1074
    assert(h * pow2(562) == w * pow2(1074)) by {
        lemma_pow2_adds(512, 562);
        lemma_mul_is_associative(w, pow2(512) as int, pow2(562) as int);
    }
    if units(b) != 0 {
        lemma_representable_small(sig, d);
    } else {
        lemma_representable_small(0, 0);
        lemma_mul_basics(pow2(0) as int);
    }
    assert(!overflows(magnitude(w))) by {
        crate::rounding::lemma_enc_of_units(b);
        lemma_mul_inequality(1, pow2(512) as int, mw as int);
        lemma_mul_is_commutative(mw as int, pow2(512) as int);
    }
    lemma_product_exact(w, sign_bit(b) != sign_bit(SMALL));
    let c = fmul(b, SMALL);
    assert(c == round_signed(w, 0, sign_bit(b)));
    // up: the exact value w * 2^1586 is h * 2^1074
    assert(w * pow2(1586) == h * pow2(1074)) by {
        lemma_pow2_adds(512, 1074);
        lemma_mul_is_associative(w, pow2(512) as int, pow2(1074) as int);
    }
    crate::rounding::lemma_rnd_exact(b);
    crate::rounding::lemma_enc_of_units(b);
    lemma_product_exact(h, sign_bit(c) != sign_bit(LARGE));
    lemma_units_bounds(b);
    if h == 0 {
        lemma_enc_parts(sign_bit(b), 0, 0);
        crate::ieee::lemma_fields_determine(b, round_signed(h, 0, sign_bit(c)));
    }
}

/// `hypot` commutes with scaling by `2^-512`: for normalized finite `x`
/// and `y` whose larger leading part in magnitude lies in `[2^-512, 1)`,
/// and whose parts keep every bit when scaled down by `2^512` (their
/// lowest significand bits weigh at least `2^-562`, or they are zero),
/// `hypot(2^-512 x, 2^-512 y) == 2^-512 hypot(x, y)`, part by part.  The
/// larger of the scaled arguments is below `2^-512`, so that `hypot`
/// scales them back up before it squares them.
pub proof fn law_hypot_scales_down(xh: u64, xl: u64, yh: u64, yl: u64)
    requires
        enc_is_finite(xh),
        enc_is_finite(xl),
        enc_is_finite(yh),
        enc_is_finite(yl),
        fadd(xh, xl) == xh,
        fadd(yh, yl) == yh,
        unit_shift(xh) >= 512 || units(xh) == 0,
        unit_shift(xl) >= 512 || units(xl) == 0,
        unit_shift(yh) >= 512 || units(yh) == 0,
        unit_shift(yl) >= 512 || units(yl) == 0,
        units(xh) < pow2(1074),
        units(yh) < pow2(1074),
        pow2(562) <= units(xh) || pow2(562) <= units(yh),
    ensures
        hypot_spec(scale((xh, xl), SMALL), scale((yh, yl), SMALL)) == scale(
            hypot_spec((xh, xl), (yh, yl)),
            SMALL,
        ),
{
    lemma2_to64();
    lemma_scale_values();
    lemma_scale_down_up(xh);
    lemma_scale_down_up(xl);
    lemma_scale_down_up(yh);
    lemma_scale_down_up(yl);
    let x2 = scale((xh, xl), SMALL);
    let y2 = scale((yh, yl), SMALL);
    lemma_fabs(xh);
    lemma_fabs(yh);
    lemma_fabs(x2.0);
    lemma_fabs(y2.0);
    lemma_pow2_pos(512);
    assert(enc_le(fabs(y2.0), fabs(x2.0)) == enc_le(fabs(yh), fabs(xh))) by {
        if units(y2.0) <= units(x2.0) {
            lemma_mul_inequality(units(y2.0) as int, units(x2.0) as int, pow2(512) as int);
        } else {
            lemma_mul_strict_inequality(units(x2.0) as int, units(y2.0) as int, pow2(512) as int);
        }
    }
    assert(scale(x2, LARGE) == (xh, xl));
    assert(scale(y2, LARGE) == (yh, yl));
    lemma_pow2_adds(562, 512);
    lemma_pow2_le(1074, 1586);
    if units(y2.0) <= units(x2.0) {
        if units(x2.0) >= pow2(562) {
            lemma_mul_inequality(pow2(562) as int, units(x2.0) as int, pow2(512) as int);
        }
    } else {
        if units(y2.0) >= pow2(562) {
            lemma_mul_inequality(pow2(562) as int, units(y2.0) as int, pow2(512) as int);
        }
    }
    assert(units(x2.0) < pow2(562) && units(y2.0) < pow2(562)) by {
        if units(x2.0) >= pow2(562) {
            lemma_mul_inequality(pow2(562) as int, units(x2.0) as int, pow2(512) as int);
        }
        if units(y2.0) >= pow2(562) {
            lemma_mul_inequality(pow2(562) as int, units(y2.0) as int, pow2(512) as int);
        }
    }
}

/// `1 / sqrt(x)`: from the binary64 root `s` of the leading part, the
/// reciprocal `1 / s` in double-double precision, corrected to first order
/// by the residual `delta = x - s * s`:
/// `1/sqrt(s^2 + delta) = 1/s - delta / (2 s^3) + ...`.  Where the leading
/// part is not positive and finite, `1 / s` in binary64.
pub open spec fn inv_sqrt_spec(x: (u64, u64)) -> (u64, u64) {
    let s = fsqrt(x.0);
    if enc_le(x.0, 0) || !enc_is_finite(x.0) {
        (fdiv(one(), s), 0)
    } else {
        let delta_x = fadd(ffma(fneg(s), s, x.0), x.1);
        let y0 = div_dd_spec(one(), s);
        let y_lo = ffma(fdiv(fneg(delta_x), fadd(x.0, x.0)), y0.0, y0.1);
        fast_two_sum(y0.0, y_lo)
    }
}

/// The reciprocal square root.
pub fn inv_sqrt(x: Df64) -> (r: Df64)
    ensures
        parts(r) == inv_sqrt_spec(parts(x)),
{
    let s = sqrt_enc(x.hi());
    let (_s, e, _f) = fields(x.hi());
    if le_enc(x.hi(), 0) || e == 0x7ff {
        return Compensated::new(div_enc(0x3ff0_0000_0000_0000u64, s), 0);
    }
    let delta_x = add_enc(fma_enc(neg_enc(s), s, x.hi()), x.lo());
    let y0 = reciprocal_d(s);
    let y_lo = fma_enc(div_enc(neg_enc(delta_x), add_enc(x.hi(), x.hi())), y0.hi(), y0.lo());
    addfast_dd(y0.hi(), y_lo)
}

} // verus!
