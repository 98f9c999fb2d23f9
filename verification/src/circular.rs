//! The circular functions `sin`, `cos` and `tan`.
//!
//! An argument is reduced modulo `pi/2`, `x = n * pi/2 + z` with
//! `|z| <= pi/4`; the last two bits of `n` pick the quadrant, and `sin(z)`
//! or `cos(z)` comes from its Taylor series.
use crate::arith::{
    add_dq, add_qd_spec, addfast_dq_spec, addfast_qq, mul_qq, addfast_dq, addfast_qd_spec, addfast_qq_spec, div_qq, fast_two_sum, mul_dd, mul_dq,
    mul_pow2, mul_qd_spec, mul_qq_spec, neg_parts, neg_q, parts, reciprocal_q_spec, sqrt_q,
    sqrt_q_spec, square_q, square_q_spec, subfast_dq, subfast_qq, two_prod,
};
use crate::exp::{series, series_sum, HALF, ONE};
use crate::checks::{is_finite, is_nan, is_zero};
use crate::funcs::{abs, abs_parts, copysign, copysign_parts};
use crate::ieee::{enc_eq, enc_is_finite, enc_is_nan, enc_is_zero, enc_le, enc_lt, eq_enc, le_enc, lt_enc};
use crate::ops::{NAN, abs_enc, fabs, fadd, fmul, fneg, fround, mul_enc, round_away_enc, to_i32, to_i32_spec};
use crate::Compensated;
use crate::Df64;
use vstd::prelude::*;

verus! {

/// `2 / pi`, rounded to binary64.
pub const INV_PI_HALF: u64 = 0x3fe4_5f30_6dc9_c883u64;

/// `pi / 2`, rounded to binary64.
pub const PI_HALF: u64 = 0x3ff9_21fb_5444_2d18u64;

/// The rest of `pi / 2` beyond `PI_HALF`, leading part.
pub const PI_HALF_CORR_HI: u64 = 0x3c91_a626_3314_5c07u64;

/// The rest of `pi / 2` beyond `PI_HALF`, compensate.
pub const PI_HALF_CORR_LO: u64 = 0xb91f_1976_b7ed_8fbcu64;

/// `0.7854`, just above `pi / 4`: the largest leading part that the series
/// accept.
pub const KERNEL_BOUND: u64 = 0x3fe9_21ff_2e48_e8a7u64;

/// The quadrant `(n as i32) & 3` and the reduced argument `x - n * pi/2`,
/// where `n` is `x.hi * 2/pi` rounded to an integer; `x` itself where `n`
/// is zero.  `n * pi/2` is subtracted in two steps: `n * PI_HALF` exactly,
/// then `n` times the rest of `pi/2`.
pub open spec fn reduce_mod_pi2_spec(x: (u64, u64)) -> (i32, (u64, u64)) {
    let n = fround(fmul(INV_PI_HALF, x.0));
    let sector = (to_i32_spec(n) as i32) & 3i32;
    if enc_eq(n, 0) {
        (0, x)
    } else {
        let z0 = addfast_qq_spec(x, neg_parts(two_prod(n, PI_HALF)));
        (sector, addfast_qq_spec(z0, neg_parts(mul_qd_spec((PI_HALF_CORR_HI, PI_HALF_CORR_LO), n))))
    }
}

/// Reduces `x` modulo `pi/2`: the quadrant, in `0..4`, and the rest.
pub fn reduce_mod_pi2(x: Df64) -> (r: (i32, Df64))
    ensures
        r.0 == reduce_mod_pi2_spec(parts(x)).0,
        parts(r.1) == reduce_mod_pi2_spec(parts(x)).1,
        0 <= r.0 < 4,
{
    let n = round_away_enc(mul_enc(INV_PI_HALF, x.hi()));
    let ni = to_i32(n);
    let sector = ni & 3i32;
    assert(0 <= sector < 4) by (bit_vector)
        requires
            sector == ni & 3i32,
    ;
    if eq_enc(n, 0) {
        return (0, x);
    }
    let z0 = subfast_qq(x, mul_dd(n, PI_HALF));
    let z = subfast_qq(z0, mul_dq(n, Compensated::new(PI_HALF_CORR_HI, PI_HALF_CORR_LO)));
    (sector, z)
}

/// `-x * x`, the multiplier between the terms of the series.
pub open spec fn minus_square(x: (u64, u64)) -> (u64, u64) {
    neg_parts(square_q_spec(x))
}

/// `sin(x)` by its Taylor series: `x` plus the terms `x^(2i+1) / (2i+1)!`
/// for `i` up to 7 in double-double precision and up to 13 in binary64.
pub open spec fn sin_kernel_spec(x: (u64, u64)) -> (u64, u64) {
    series_sum(minus_square(x), 1, 7, 13, 2, 1, x, x)
}

/// `cos(x)` by its Taylor series: `1 - x^2/2` plus the terms
/// `x^(2i) / (2i)!` for `i` up to 8 in double-double precision and up to 13
/// in binary64.
pub open spec fn cos_kernel_spec(x: (u64, u64)) -> (u64, u64) {
    let xsq = minus_square(x);
    let h = (fmul(xsq.0, HALF), fmul(xsq.1, HALF));
    let s = fast_two_sum(ONE, h.0);
    let r = fast_two_sum(s.0, fadd(h.1, s.1));
    series_sum(xsq, 2, 8, 13, 2, 0, r, xsq)
}

/// The sine of `x` with `|x.hi| <= 0.7854`, by its Taylor series.
pub fn sin_kernel(x: Df64) -> (r: Df64)
    requires
        enc_le(fabs(x.hi_part()), KERNEL_BOUND),
    ensures
        parts(r) == sin_kernel_spec(parts(x)),
{
    let xsq = neg_q(square_q(x));
    series(xsq, 1, 7, 13, 2, 1, x, x)
}

/// The cosine of `x` with `|x.hi| <= 0.7854`, by its Taylor series.
pub fn cos_kernel(x: Df64) -> (r: Df64)
    requires
        enc_le(fabs(x.hi_part()), KERNEL_BOUND),
    ensures
        parts(r) == cos_kernel_spec(parts(x)),
{
    let xsq = neg_q(square_q(x));
    let r = addfast_dq(ONE, mul_pow2(xsq, HALF));
    series(xsq, 2, 8, 13, 2, 0, r, xsq)
}

/// `sin(x)` from the series, and `cos(x)` as `sqrt(1 - sin(x)^2)`.
pub open spec fn sincos_kernel_spec(x: (u64, u64)) -> ((u64, u64), (u64, u64)) {
    let s = sin_kernel_spec(x);
    let sq = square_q_spec(s);
    let d = fast_two_sum(ONE, fneg(sq.0));
    let c = sqrt_q_spec(fast_two_sum(d.0, fadd(fneg(sq.1), d.1)));
    (s, c)
}

/// The sine and the cosine of `x` with `|x.hi| <= 0.7854`: the cosine from
/// the sine.
pub fn sincos_kernel(x: Df64) -> (r: (Df64, Df64))
    requires
        enc_le(fabs(x.hi_part()), KERNEL_BOUND),
    ensures
        (parts(r.0), parts(r.1)) == sincos_kernel_spec(parts(x)),
{
    let s = sin_kernel(x);
    let c = sqrt_q(subfast_dq(ONE, square_q(s)));
    (s, c)
}

/// The reduction leaves an argument that the series accept: its leading
/// part is at most `0.7854` in magnitude (and not NaN).
pub open spec fn reduction_in_range(x: (u64, u64)) -> bool {
    enc_le(fabs(reduce_mod_pi2_spec(x).1.0), KERNEL_BOUND)
}

/// Whether `sin`, `cos`, `sincos` and `tan` accept `x`: the test that the
/// series make on the reduced argument.  It fails on NaN, on the
/// infinities, and where `x` is too large for the reduction.
pub fn reduction_ok(x: Df64) -> (r: bool)
    ensures
        r == reduction_in_range(parts(x)),
{
    let (_sector, z) = reduce_mod_pi2(x);
    le_enc(abs_enc(z.hi()), KERNEL_BOUND)
}

/// The sine: in quadrant `s` of the reduction `x = n * pi/2 + z`,
/// `sin(z)`, `cos(z)`, `-sin(z)` or `-cos(z)`.
pub open spec fn sin_spec(x: (u64, u64)) -> (u64, u64) {
    let (s, z) = reduce_mod_pi2_spec(x);
    if s == 0 {
        sin_kernel_spec(z)
    } else if s == 1 {
        cos_kernel_spec(z)
    } else if s == 2 {
        neg_parts(sin_kernel_spec(z))
    } else {
        neg_parts(cos_kernel_spec(z))
    }
}

/// The cosine: in quadrant `s` of the reduction `x = n * pi/2 + z`,
/// `cos(z)`, `-sin(z)`, `-cos(z)` or `sin(z)`.
pub open spec fn cos_spec(x: (u64, u64)) -> (u64, u64) {
    let (s, z) = reduce_mod_pi2_spec(x);
    if s == 0 {
        cos_kernel_spec(z)
    } else if s == 1 {
        neg_parts(sin_kernel_spec(z))
    } else if s == 2 {
        neg_parts(cos_kernel_spec(z))
    } else {
        sin_kernel_spec(z)
    }
}

/// The sine and the cosine together, from one reduction and one series:
/// `(s, c)`, `(c, -s)`, `(-s, -c)` or `(-c, s)` by the quadrant.
pub open spec fn sincos_spec(x: (u64, u64)) -> ((u64, u64), (u64, u64)) {
    let (q, z) = reduce_mod_pi2_spec(x);
    let (s, c) = sincos_kernel_spec(z);
    if q == 0 {
        (s, c)
    } else if q == 1 {
        (c, neg_parts(s))
    } else if q == 2 {
        (neg_parts(s), neg_parts(c))
    } else {
        (neg_parts(c), s)
    }
}

/// The tangent: the quotient of `sincos`.
pub open spec fn tan_spec(x: (u64, u64)) -> (u64, u64) {
    let (s, c) = sincos_spec(x);
    mul_qq_spec(reciprocal_q_spec(c), s)
}

/// The sine.
pub fn sin(x: Df64) -> (r: Df64)
    requires
        reduction_in_range(parts(x)),
    ensures
        parts(r) == sin_spec(parts(x)),
{
    let (sector, z) = reduce_mod_pi2(x);
    if sector == 0 {
        sin_kernel(z)
    } else if sector == 1 {
        cos_kernel(z)
    } else if sector == 2 {
        neg_q(sin_kernel(z))
    } else {
        neg_q(cos_kernel(z))
    }
}

/// The cosine.
pub fn cos(x: Df64) -> (r: Df64)
    requires
        reduction_in_range(parts(x)),
    ensures
        parts(r) == cos_spec(parts(x)),
{
    let (sector, z) = reduce_mod_pi2(x);
    if sector == 0 {
        cos_kernel(z)
    } else if sector == 1 {
        neg_q(sin_kernel(z))
    } else if sector == 2 {
        neg_q(cos_kernel(z))
    } else {
        sin_kernel(z)
    }
}

/// The sine and the cosine of `x`.
pub fn sincos(x: Df64) -> (r: (Df64, Df64))
    requires
        reduction_in_range(parts(x)),
    ensures
        (parts(r.0), parts(r.1)) == sincos_spec(parts(x)),
{
    let (sector, z) = reduce_mod_pi2(x);
    let (s, c) = sincos_kernel(z);
    if sector == 0 {
        (s, c)
    } else if sector == 1 {
        (c, neg_q(s))
    } else if sector == 2 {
        (neg_q(s), neg_q(c))
    } else {
        (neg_q(c), s)
    }
}

/// The tangent.
pub fn tan(x: Df64) -> (r: Df64)
    requires
        reduction_in_range(parts(x)),
    ensures
        parts(r) == tan_spec(parts(x)),
{
    let (s, c) = sincos(x);
    div_qq(s, c)
}

// ---------------------------------------------------------------------------
// The inverse functions

/// `pi`, leading part.
pub const PI_HI: u64 = 0x4009_21fb_5444_2d18u64;

/// `pi`, compensate.
pub const PI_LO: u64 = 0x3ca1_a626_3314_5c07u64;

/// Minus one.
pub const MINUS_ONE: u64 = 0xbff0_0000_0000_0000u64;

/// `pi / 2` in double-double precision.
pub open spec fn pi_half() -> (u64, u64) {
    (PI_HALF, PI_HALF_CORR_HI)
}

/// The parts of `x` compare equal to `(a, 0)`, part by part as binary64
/// numbers (so that either zero matches).
pub open spec fn parts_eq(x: (u64, u64), a: u64) -> bool {
    enc_eq(x.0, a) && enc_eq(x.1, 0)
}

fn parts_eq_exec(x: Df64, a: u64) -> (r: bool)
    ensures
        r == parts_eq(parts(x), a),
{
    eq_enc(x.hi(), a) && eq_enc(x.lo(), 0)
}

/// `asin` expands around `y0`: the seed is finite and `|x|` is not one.
pub open spec fn asin_expands(x: (u64, u64), y0: u64) -> bool {
    enc_is_finite(y0) && !parts_eq(abs_parts(x), ONE)
}

/// `asin(x)` from a binary64 approximation `y0` of `asin(x.hi)`: `y0`
/// where it is not finite, `pi/2` with the sign of `x` where `|x|` is one,
/// and otherwise `y0 + (x - sin(y0)) / cos(y0)`.
pub open spec fn asin_spec(x: (u64, u64), y0: u64) -> (u64, u64) {
    if !enc_is_finite(y0) {
        (y0, 0)
    } else if parts_eq(abs_parts(x), ONE) {
        copysign_parts(pi_half(), x)
    } else {
        let (x0, w) = sincos_spec((y0, 0));
        add_qd_spec(mul_qq_spec(reciprocal_q_spec(w), addfast_qq_spec(x, neg_parts(x0))), y0)
    }
}

/// The arcsine of `x`, from the binary64 arcsine `y0` of its leading part
/// by one step of the expansion `asin(x) = y0 + (x - sin(y0)) / cos(y0) +
/// O(x - sin(y0))^2`.
pub fn asin(x: Df64, y0: u64) -> (r: Df64)
    requires
        asin_expands(parts(x), y0) ==> reduction_in_range((y0, 0)),
    ensures
        parts(r) == asin_spec(parts(x), y0),
{
    let seed = Compensated::new(y0, 0);
    if !is_finite(seed) {
        return seed;
    }
    if parts_eq_exec(abs(x), ONE) {
        return copysign(Compensated::new(PI_HALF, PI_HALF_CORR_HI), x);
    }
    let (x0, w) = sincos(seed);
    add_dq(y0, div_qq(subfast_qq(x, x0), w))
}

/// `acos` expands around `y0`: the seed is finite and `x` is neither one
/// nor minus one.
pub open spec fn acos_expands(x: (u64, u64), y0: u64) -> bool {
    enc_is_finite(y0) && !parts_eq(x, ONE) && !parts_eq(x, MINUS_ONE)
}

/// `acos(x)` from a binary64 approximation `y0` of `acos(x.hi)`: `y0`
/// where it is not finite, zero at one, `pi` at minus one, and otherwise
/// `y0 + (cos(y0) - x) / sin(y0)`.
pub open spec fn acos_spec(x: (u64, u64), y0: u64) -> (u64, u64) {
    if !enc_is_finite(y0) {
        (y0, 0)
    } else if parts_eq(x, ONE) {
        (0, 0)
    } else if parts_eq(x, MINUS_ONE) {
        (PI_HI, PI_LO)
    } else {
        let (w, x0) = sincos_spec((y0, 0));
        add_qd_spec(mul_qq_spec(reciprocal_q_spec(w), addfast_qq_spec(x0, neg_parts(x))), y0)
    }
}

/// The arccosine of `x`, from the binary64 arccosine `y0` of its leading
/// part by one step of the expansion `acos(x) = y0 - (x - cos(y0)) /
/// sin(y0) + O(x - cos(y0))^2`.
pub fn acos(x: Df64, y0: u64) -> (r: Df64)
    requires
        acos_expands(parts(x), y0) ==> reduction_in_range((y0, 0)),
    ensures
        parts(r) == acos_spec(parts(x), y0),
{
    let seed = Compensated::new(y0, 0);
    if !is_finite(seed) {
        return seed;
    }
    if parts_eq_exec(x, ONE) {
        return Compensated::new(0, 0);
    } else if parts_eq_exec(x, MINUS_ONE) {
        return Compensated::new(PI_HI, PI_LO);
    }
    let (w, x0) = sincos(seed);
    add_dq(y0, div_qq(subfast_qq(x0, x), w))
}

/// `atan` expands `x` itself: `|x.hi| <= 1`.  Beyond, it reflects
/// `atan(x) = sign(x) pi/2 - atan(1/x)`.
pub open spec fn atan_expands_spec(x: (u64, u64)) -> bool {
    enc_le(fabs(x.0), ONE)
}

/// Whether `atan` expands `x` itself (`|x.hi| <= 1`) rather than reflecting
/// it.
pub fn atan_expands(x: Df64) -> (r: bool)
    ensures
        r == atan_expands_spec(parts(x)),
{
    le_enc(abs_enc(x.hi()), ONE)
}

/// `atan(x)` from a binary64 approximation `y0` of `atan(x.hi)`:
/// `y0 + (x - tan(y0)) * cos(y0)^2`.
pub open spec fn atan_refine_spec(x: (u64, u64), y0: u64) -> (u64, u64) {
    let (s, c) = sincos_spec((y0, 0));
    let x0 = mul_qq_spec(reciprocal_q_spec(c), s);
    addfast_dq_spec(y0, mul_qq_spec(addfast_qq_spec(x, neg_parts(x0)), square_q_spec(c)))
}

/// The arctangent of `x` with `|x.hi| <= 1`, from the binary64 arctangent
/// `y0` of its leading part by one step of the expansion `atan(x) = y0 +
/// (x - tan(y0)) * cos(y0)^2 + O(x - tan(y0))^2`.
fn atan_refine(x: Df64, y0: u64) -> (r: Df64)
    requires
        reduction_in_range((y0, 0)),
    ensures
        parts(r) == atan_refine_spec(parts(x), y0),
{
    let (s, c) = sincos(Compensated::new(y0, 0));
    let x0 = div_qq(s, c);
    addfast_dq(y0, mul_qq(subfast_qq(x, x0), square_q(c)))
}

/// The reflection of `atan` for `|x.hi| > 1`: NaN stays, an infinity
/// gives `pi/2` with its sign, and otherwise `sign(x) pi/2 - inner` with
/// `inner = atan(1/x)`.
pub open spec fn atan_reflect_spec(x: (u64, u64), inner: (u64, u64)) -> (u64, u64) {
    if enc_is_nan(x.0) {
        x
    } else if enc_is_finite(x.0) {
        addfast_qq_spec(copysign_parts(pi_half(), x), neg_parts(inner))
    } else {
        copysign_parts(pi_half(), x)
    }
}

/// The arctangent of `x` with `|x.hi| > 1` from the arctangent `inner` of
/// its reciprocal: `sign(x) pi/2 - inner`.
fn atan_reflect(x: Df64, inner: Df64) -> (r: Df64)
    ensures
        parts(r) == atan_reflect_spec(parts(x), parts(inner)),
{
    if is_nan(x) {
        return x;
    }
    let y = copysign(Compensated::new(PI_HALF, PI_HALF_CORR_HI), x);
    if is_finite(x) {
        subfast_qq(y, inner)
    } else {
        y
    }
}

/// `atan(x)` from a binary64 approximation `y0` of `atan(x.hi)` and the
/// arctangent `inner` of the reciprocal of `x`: the expansion around `y0`
/// where `|x.hi| <= 1`, and the reflection with `inner` elsewhere.
pub open spec fn atan_spec(x: (u64, u64), y0: u64, inner: (u64, u64)) -> (u64, u64) {
    if atan_expands_spec(x) {
        atan_refine_spec(x, y0)
    } else {
        atan_reflect_spec(x, inner)
    }
}

/// The arctangent of `x`, from the binary64 arctangent `y0` of its leading
/// part where `|x.hi| <= 1`, and from the arctangent `inner` of `1/x`
/// elsewhere (`atan(x) = sign(x) pi/2 - atan(1/x)`); each is read only
/// where it is used.
pub fn atan(x: Df64, y0: u64, inner: Df64) -> (r: Df64)
    requires
        atan_expands_spec(parts(x)) ==> reduction_in_range((y0, 0)),
    ensures
        parts(r) == atan_spec(parts(x), y0, parts(inner)),
{
    if atan_expands(x) {
        atan_refine(x, y0)
    } else {
        atan_reflect(x, inner)
    }
}

/// `atan2(y, x)` from `a = atan(y / x)`: NaN where either is NaN; where `y`
/// is zero, zero for `x.hi >= 0` and `pi` otherwise; where `x` is zero,
/// `pi/2` with the sign of `y`; otherwise `a`, moved by `pi` with the sign
/// of `y` where `x.hi < 0`.
pub open spec fn atan2_spec(y: (u64, u64), x: (u64, u64), a: (u64, u64)) -> (u64, u64) {
    if enc_is_nan(x.0) || enc_is_nan(y.0) {
        (NAN, 0)
    } else if enc_is_zero(y.0) {
        if enc_le(0, x.0) {
            (0, 0)
        } else {
            (PI_HI, PI_LO)
        }
    } else if enc_is_zero(x.0) {
        copysign_parts(pi_half(), y)
    } else if enc_lt(x.0, 0) {
        addfast_qq_spec(copysign_parts((PI_HI, PI_LO), y), a)
    } else {
        a
    }
}

/// The angle of the point `(x, y)`, from the arctangent `a` of `y / x`:
/// the special values, and the quadrant.
pub fn atan2(y: Df64, x: Df64, a: Df64) -> (r: Df64)
    ensures
        parts(r) == atan2_spec(parts(y), parts(x), parts(a)),
{
    if is_nan(x) || is_nan(y) {
        return Compensated::new(NAN, 0);
    } else if is_zero(y) {
        if le_enc(0, x.hi()) {
            return Compensated::new(0, 0);
        } else {
            return Compensated::new(PI_HI, PI_LO);
        }
    } else if is_zero(x) {
        return copysign(Compensated::new(PI_HALF, PI_HALF_CORR_HI), y);
    }
    if lt_enc(x.hi(), 0) {
        addfast_qq(copysign(Compensated::new(PI_HI, PI_LO), y), a)
    } else {
        a
    }
}

} // verus!
