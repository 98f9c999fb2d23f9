//! Classification and closeness of double-double numbers.
//!
//! The class of a double-double number is decided by its leading part,
//! except for the boundary between normal and subnormal numbers: both parts
//! of a normal double-double number must be able to be normal, so a number
//! counts as normal only if `hi * EPSILON` (EPSILON = 2^-52, the binary64
//! machine epsilon) is normal too.
use crate::ieee::{
    enc_is_finite, enc_is_infinite, enc_is_nan, enc_is_normal, enc_is_subnormal, enc_is_zero,
    exp_field, fields, lemma_rne_shr_shifted, rne_shr, rne_shr_u64, sign_bit, significand, two52,
    unit_shift, units,
};
use crate::arith::{addfast_qq_spec, neg_parts, parts, subfast_qq};
use crate::ieee::{enc_le, enc_lt, le_enc, lt_enc};
use crate::ops::{abs_enc, fabs, fmul, mul_enc};
use crate::Df64;
use vstd::prelude::*;

verus! {

/// The classes of floating-point numbers.
#[derive(Clone, Copy, Debug, PartialEq, Eq, Structural)]
pub enum FpCategory {
    Nan,
    Infinite,
    Zero,
    Subnormal,
    Normal,
}

/// The class of a binary64 number.
pub open spec fn enc_category(b: u64) -> FpCategory {
    if enc_is_nan(b) {
        FpCategory::Nan
    } else if enc_is_infinite(b) {
        FpCategory::Infinite
    } else if enc_is_zero(b) {
        FpCategory::Zero
    } else if enc_is_subnormal(b) {
        FpCategory::Subnormal
    } else {
        FpCategory::Normal
    }
}

/// The class of the binary64 product `b * 2^-52`, rounded to nearest, ties
/// to even.  For a biased exponent above 52 the product is exact and
/// normal; otherwise it lies below 2^-1022, where the binary64 numbers are
/// the multiples of 2^-1074, so the product in units of 2^-1074 is
/// `units(b) / 2^52`, rounded.
pub open spec fn eps_scaled_category(b: u64) -> FpCategory {
    if enc_is_nan(b) {
        FpCategory::Nan
    } else if enc_is_infinite(b) {
        FpCategory::Infinite
    } else if exp_field(b) > 52 {
        FpCategory::Normal
    } else {
        let n = rne_shr(units(b), 52);
        if n == 0 {
            FpCategory::Zero
        } else if n < two52() {
            FpCategory::Subnormal
        } else {
            FpCategory::Normal
        }
    }
}

/// The class of `b * 2^-52`.
fn eps_scaled_category_of(b: u64) -> (c: FpCategory)
    ensures
        c == eps_scaled_category(b),
{
    let (_s, e, f) = fields(b);
    if e == 0x7ff {
        if f != 0 {
            FpCategory::Nan
        } else {
            FpCategory::Infinite
        }
    } else if e > 52 {
        FpCategory::Normal
    } else {
        let sig: u64 = if e == 0 {
            f
        } else {
            f + 0x10_0000_0000_0000
        };
        let sh: u64 = if e == 0 {
            0
        } else {
            e - 1
        };
        let n = rne_shr_u64(sig, 52 - sh);
        proof {
            assert(sig == significand(b) && sh == unit_shift(b));
            lemma_rne_shr_shifted(sig as nat, sh as nat, 52);
        }
        if n == 0 {
            FpCategory::Zero
        } else if n < 0x10_0000_0000_0000 {
            FpCategory::Subnormal
        } else {
            FpCategory::Normal
        }
    }
}

/// Whether `x` is neither infinite nor NaN.
pub fn is_finite(x: Df64) -> (r: bool)
    ensures
        r == enc_is_finite(x.hi_part()),
{
    let (_s, e, _f) = fields(x.hi());
    e != 0x7ff
}

/// Whether `x` is positive or negative infinity.
pub fn is_infinite(x: Df64) -> (r: bool)
    ensures
        r == enc_is_infinite(x.hi_part()),
{
    let (_s, e, f) = fields(x.hi());
    e == 0x7ff && f == 0
}

/// Whether `x` is NaN.
pub fn is_nan(x: Df64) -> (r: bool)
    ensures
        r == enc_is_nan(x.hi_part()),
{
    let (_s, e, f) = fields(x.hi());
    e == 0x7ff && f != 0
}

/// Whether `x` is normal: its leading part is normal, and so is the leading
/// part times the machine epsilon, which is where the compensate of a
/// normal number may lie.
pub fn is_normal(x: Df64) -> (r: bool)
    ensures
        r == (enc_is_normal(x.hi_part()) && eps_scaled_category(x.hi_part())
            == FpCategory::Normal),
{
    let hi = x.hi();
    let (_s, e, _f) = fields(hi);
    let c = eps_scaled_category_of(hi);
    0 < e && e < 0x7ff && c == FpCategory::Normal
}

/// Whether `x` is subnormal: its leading part is subnormal, or the leading
/// part times the machine epsilon is.
pub fn is_subnormal(x: Df64) -> (r: bool)
    ensures
        r == (enc_is_subnormal(x.hi_part()) || eps_scaled_category(x.hi_part())
            == FpCategory::Subnormal),
{
    let hi = x.hi();
    let (_s, e, f) = fields(hi);
    let c = eps_scaled_category_of(hi);
    (e == 0 && f != 0) || c == FpCategory::Subnormal
}

/// Whether `x` is positive or negative zero.
pub fn is_zero(x: Df64) -> (r: bool)
    ensures
        r == enc_is_zero(x.hi_part()),
{
    let (_s, e, f) = fields(x.hi());
    e == 0 && f == 0
}

/// The class of the leading part of `x`.
pub fn classify(x: Df64) -> (r: FpCategory)
    ensures
        r == enc_category(x.hi_part()),
{
    let (_s, e, f) = fields(x.hi());
    if e == 0x7ff {
        if f != 0 {
            FpCategory::Nan
        } else {
            FpCategory::Infinite
        }
    } else if e == 0 {
        if f == 0 {
            FpCategory::Zero
        } else {
            FpCategory::Subnormal
        }
    } else {
        FpCategory::Normal
    }
}

/// Whether the sign bit of the leading part of `x` is set, which is the
/// sign of `x` (negative zero and NaN included).
pub fn is_sign_negative(a: Df64) -> (r: bool)
    ensures
        r == sign_bit(a.hi_part()),
{
    let (s, _e, _f) = fields(a.hi());
    s
}

// ---------------------------------------------------------------------------
// Closeness

/// `a.max(b)` for binary64 numbers: a NaN gives way to the other argument.
/// Of two equal arguments (the two zeros) this is `a`; std leaves that
/// choice open, and a comparison with the result does not see it.
pub open spec fn fmax(a: u64, b: u64) -> u64 {
    if enc_is_nan(a) {
        b
    } else if enc_is_nan(b) {
        a
    } else if enc_lt(a, b) {
        b
    } else {
        a
    }
}

fn max_enc(a: u64, b: u64) -> (r: u64)
    ensures
        r == fmax(a, b),
{
    let (_sa, ea, fa) = fields(a);
    let (_sb, eb, fb) = fields(b);
    if ea == 0x7ff && fa != 0 {
        b
    } else if eb == 0x7ff && fb != 0 {
        a
    } else if lt_enc(a, b) {
        b
    } else {
        a
    }
}

/// `a` and `b` are close, by absolute distance `|a - b| <= atol` or by
/// relative distance `|a - b| <= rtol * max(|a|, |b|)`: the difference is
/// taken from the number of larger leading part, and its leading part is
/// compared with the larger of the two tolerances.
pub open spec fn isclose_spec(a: (u64, u64), b: (u64, u64), atol: u64, rtol: u64) -> bool {
    if enc_lt(fabs(b.0), fabs(a.0)) {
        enc_le(fabs(addfast_qq_spec(b, neg_parts(a)).0), fmax(atol, fmul(rtol, fabs(a.0))))
    } else {
        enc_le(fabs(addfast_qq_spec(a, neg_parts(b)).0), fmax(atol, fmul(rtol, fabs(b.0))))
    }
}

/// Checks that two double-double numbers are close, by absolute distance
/// `|a - b| <= atol` or by relative distance `|a - b| <= rtol * max(|a|,
/// |b|)`; the tolerances are binary64 numbers.
pub fn isclose_qq(a: Df64, b: Df64, atol: u64, rtol: u64) -> (r: bool)
    ensures
        r == isclose_spec(parts(a), parts(b), atol, rtol),
{
    if lt_enc(abs_enc(b.hi()), abs_enc(a.hi())) {
        let threshold = max_enc(atol, mul_enc(rtol, abs_enc(a.hi())));
        let diff = subfast_qq(b, a).hi();
        le_enc(abs_enc(diff), threshold)
    } else {
        let threshold = max_enc(atol, mul_enc(rtol, abs_enc(b.hi())));
        let diff = subfast_qq(a, b).hi();
        le_enc(abs_enc(diff), threshold)
    }
}

} // verus!
