//! The hyperbolic functions `cosh`, `sinh` and `tanh`, from the
//! exponential, and their inverses, from the logarithm.
use crate::arith::{
    add_qq_spec, addfast_qd_spec, sqrt_q, sqrt_q_spec, square_q, square_q_spec, sub_qq, subfast_dq, subfast_qd,
    add_dq, add_qd_spec, addfast_dq, addfast_dq_spec, addfast_qq, addfast_qq_spec, div_qq,
    mul_pow2, mul_qq, mul_qq_spec, neg_parts, parts, reciprocal_q, reciprocal_q_spec, subfast_qq,
};
use crate::checks::{is_finite, is_nan};
use crate::roots::{hypot, hypot_spec, inv_sqrt, inv_sqrt_spec};
use crate::exp::{
    exp_accepts, expm1, expm1_spec, expm1_split, expm1_split_spec, log, log1p, log1p_spec, log_accepts, log_spec, HALF,
    INFINITY, ONE, TWO,
};
use crate::funcs::{abs, abs_parts, copysign, copysign_parts, ldexp};
use crate::ieee::{enc_eq, enc_is_finite, enc_is_nan, enc_le, enc_lt, eq_enc, le_enc, lt_enc};
use crate::ops::{abs_enc, fabs, fldexp, fmul, fneg, NAN};
use crate::Compensated;
use crate::Df64;
use vstd::prelude::*;

verus! {

/// Beyond `710.4758600739439` in magnitude, `cosh` and `sinh` overflow.
pub const COSH_MAX: u64 = 0x4086_33ce_8fb9_f87du64;

/// `36.5`: beyond it `exp(-|x|)` no longer reaches `exp(|x|)` in
/// double-double precision.
pub const LARGE_ARG: u64 = 0x4042_4000_0000_0000u64;

/// One quarter.
pub const QUARTER: u64 = 0x3fd0_0000_0000_0000u64;

/// `exp(x) / 2` as `2^(m-1) * (1 + expm1_y)` from the split of `x`.
pub open spec fn exp_half(x: (u64, u64)) -> (u64, u64) {
    let sp = expm1_split_spec(x);
    let e = addfast_dq_spec(ONE, sp.1);
    (fldexp(e.0, sp.0 - 1), fldexp(e.1, sp.0 - 1))
}

/// `exp(-x) / 2` as `1/4 * 2 / exp(x)` from `e = exp(x) / 2`.
pub open spec fn exp_minus_half(e: (u64, u64)) -> (u64, u64) {
    let q = reciprocal_q_spec(e);
    (fmul(q.0, QUARTER), fmul(q.1, QUARTER))
}

/// `cosh` and `sinh` accept `x`: either `|x|` is NaN or beyond `COSH_MAX`,
/// or the exponential's reduction leaves a small enough argument.
pub open spec fn cosh_accepts(x: (u64, u64)) -> bool {
    !enc_le(abs_parts(x).0, COSH_MAX) || crate::exp::reduction_in_range(abs_parts(x))
}

/// `tanh` accepts `x`: either `|x|` is NaN or beyond `36.5`, or `expm1`
/// accepts `|x|`.
pub open spec fn tanh_accepts(x: (u64, u64)) -> bool {
    !enc_le(abs_parts(x).0, LARGE_ARG) || exp_accepts(abs_parts(x))
}

/// The hyperbolic cosine: NaN for NaN, infinity beyond `COSH_MAX`, and
/// otherwise `exp(|x|)/2 + exp(-|x|)/2`, of which the second term is left
/// out beyond `36.5`.
pub open spec fn cosh_spec(x: (u64, u64)) -> (u64, u64) {
    let xx = abs_parts(x);
    if !enc_le(xx.0, COSH_MAX) {
        if enc_is_nan(x.0) {
            (NAN, 0)
        } else {
            (INFINITY, 0)
        }
    } else {
        let e = exp_half(xx);
        if !enc_le(xx.0, LARGE_ARG) {
            e
        } else {
            addfast_qq_spec(e, exp_minus_half(e))
        }
    }
}

/// The hyperbolic sine: NaN for NaN, infinity with the sign of `x` beyond
/// `COSH_MAX`; where the split of `exp(|x|) = 2^m * (1 + y)` has `m == 0`,
/// `y * (1 + y/2) / (1 + y)`, and otherwise `exp(|x|)/2 - exp(-|x|)/2`, of
/// which the second term is left out beyond `36.5`; with the sign of `x`.
pub open spec fn sinh_spec(x: (u64, u64)) -> (u64, u64) {
    let xx = abs_parts(x);
    if !enc_le(xx.0, COSH_MAX) {
        if enc_is_nan(x.0) {
            (NAN, 0)
        } else {
            copysign_parts((INFINITY, 0), x)
        }
    } else {
        let sp = expm1_split_spec(xx);
        let y = sp.1;
        if sp.0 == 0 {
            let dn = addfast_dq_spec(ONE, (fmul(y.0, HALF), fmul(y.1, HALF)));
            let en = addfast_dq_spec(ONE, y);
            copysign_parts(mul_qq_spec(reciprocal_q_spec(en), mul_qq_spec(y, dn)), x)
        } else {
            let e = exp_half(xx);
            if !enc_le(xx.0, LARGE_ARG) {
                copysign_parts(e, x)
            } else {
                copysign_parts(addfast_qq_spec(e, neg_parts(exp_minus_half(e))), x)
            }
        }
    }
}

/// The hyperbolic tangent: NaN for NaN, one with the sign of `x` beyond
/// `36.5`, and otherwise `z / (2 + z)` with `z = y * (2 + y)` and
/// `y = expm1(|x|)`, with the sign of `x`.
pub open spec fn tanh_spec(x: (u64, u64)) -> (u64, u64) {
    let xx = abs_parts(x);
    if !enc_le(xx.0, LARGE_ARG) {
        if enc_is_nan(x.0) {
            (NAN, 0)
        } else {
            copysign_parts((ONE, 0), x)
        }
    } else {
        let y = expm1_spec(xx);
        let z = mul_qq_spec(y, add_qd_spec(y, TWO));
        copysign_parts(mul_qq_spec(reciprocal_q_spec(add_qd_spec(z, TWO)), z), x)
    }
}

/// The hyperbolic cosine.
pub fn cosh(x: Df64) -> (r: Df64)
    requires
        cosh_accepts(parts(x)),
    ensures
        parts(r) == cosh_spec(parts(x)),
{
    let xx = abs(x);
    if !le_enc(xx.hi(), COSH_MAX) {
        if is_nan(x) {
            return Compensated::new(NAN, 0);
        } else {
            return Compensated::new(INFINITY, 0);
        }
    }
    let (m, y) = expm1_split(xx);
    let exp_x_half = ldexp(addfast_dq(ONE, y), m - 1);
    if !le_enc(xx.hi(), LARGE_ARG) {
        return exp_x_half;
    }
    let exp_mx_half = mul_pow2(reciprocal_q(exp_x_half), QUARTER);
    addfast_qq(exp_x_half, exp_mx_half)
}

/// The hyperbolic sine.
pub fn sinh(x: Df64) -> (r: Df64)
    requires
        cosh_accepts(parts(x)),
    ensures
        parts(r) == sinh_spec(parts(x)),
{
    let xx = abs(x);
    if !le_enc(xx.hi(), COSH_MAX) {
        if is_nan(x) {
            return Compensated::new(NAN, 0);
        } else {
            return copysign(Compensated::new(INFINITY, 0), x);
        }
    }
    let (m, y) = expm1_split(xx);
    if m == 0 {
        let dn = addfast_dq(ONE, mul_pow2(y, HALF));
        let en = addfast_dq(ONE, y);
        return copysign(div_qq(mul_qq(y, dn), en), x);
    }
    let exp_x_half = ldexp(addfast_dq(ONE, y), m - 1);
    if !le_enc(xx.hi(), LARGE_ARG) {
        return copysign(exp_x_half, x);
    }
    let exp_mx_half = mul_pow2(reciprocal_q(exp_x_half), QUARTER);
    copysign(subfast_qq(exp_x_half, exp_mx_half), x)
}

/// The hyperbolic tangent.
pub fn tanh(x: Df64) -> (r: Df64)
    requires
        tanh_accepts(parts(x)),
    ensures
        parts(r) == tanh_spec(parts(x)),
{
    let xx = abs(x);
    if !le_enc(xx.hi(), LARGE_ARG) {
        if is_nan(x) {
            return Compensated::new(NAN, 0);
        } else {
            return copysign(Compensated::new(ONE, 0), x);
        }
    }
    let y = expm1(xx);
    let z = mul_qq(y, add_dq(TWO, y));
    copysign(div_qq(z, add_dq(TWO, z)), x)
}

// ---------------------------------------------------------------------------
// The inverse functions

/// `1 / f64::EPSILON = 2^52`: beyond it `x^2 - 1` is `x^2` in
/// double-double precision.
pub const TWO_POW_52: u64 = 0x4330_0000_0000_0000u64;

/// The argument `sqrt(1 + x^2) + |x|` whose logarithm is `asinh(|x|)`.
pub open spec fn asinh_arg_spec(x: (u64, u64)) -> (u64, u64) {
    let xx = abs_parts(x);
    addfast_qq_spec(hypot_spec((ONE, 0), xx), xx)
}

/// `sqrt(1 + x^2) + |x|`, whose logarithm is `asinh(|x|)`.
pub fn asinh_arg(x: Df64) -> (r: Df64)
    ensures
        parts(r) == asinh_arg_spec(parts(x)),
{
    let xx = abs(x);
    addfast_qq(hypot(Compensated::new(ONE, 0), xx), xx)
}

/// `asinh` expands around the seed: `x` is finite with `|x.hi| < 1`.
pub open spec fn asinh_expands(x: (u64, u64)) -> bool {
    enc_is_finite(x.0) && enc_lt(fabs(x.0), ONE)
}

/// `asinh(x)` from a binary64 approximation `y0` of `asinh(x.hi)` and a
/// binary64 approximation `ly` of the logarithm of the leading part of
/// `asinh_arg(x)`: the infinities and NaN stay; for `|x.hi| < 1`,
/// `y0 + (x - sinh(y0)) / sqrt(1 + sinh(y0)^2)`, and otherwise the
/// logarithm of `asinh_arg(x)`, refined from `ly`, with the sign of `x`.
pub open spec fn asinh_spec(x: (u64, u64), y0: u64, ly: u64) -> (u64, u64) {
    if !enc_is_finite(x.0) {
        x
    } else if enc_lt(fabs(x.0), ONE) {
        let x0 = sinh_spec((y0, 0));
        let delta = mul_qq_spec(
            add_qq_spec(x, neg_parts(x0)),
            inv_sqrt_spec(add_qd_spec(square_q_spec(x0), ONE)),
        );
        addfast_dq_spec(y0, delta)
    } else {
        copysign_parts(log_spec(asinh_arg_spec(x), ly), x)
    }
}

/// The inverse hyperbolic sine, from the binary64 `asinh` `y0` of the
/// leading part where `|x.hi| < 1` (one step of the expansion around it,
/// free of the cancellation in the logarithm), and elsewhere as the
/// logarithm of `asinh_arg(x) = sqrt(1 + x^2) + |x|`, refined from the
/// binary64 logarithm `ly` of its leading part.  Each seed is read only
/// where it is used.
pub fn asinh(x: Df64, y0: u64, ly: u64) -> (r: Df64)
    requires
        asinh_expands(parts(x)) ==> cosh_accepts((y0, 0)),
        enc_is_finite(x.hi_part()) && !asinh_expands(parts(x)) ==> log_accepts(ly),
    ensures
        parts(r) == asinh_spec(parts(x), y0, ly),
{
    if !is_finite(x) {
        return x;
    }
    if lt_enc(abs_enc(x.hi()), ONE) {
        let x0 = sinh(Compensated::new(y0, 0));
        let delta_y = mul_qq(sub_qq(x, x0), inv_sqrt(add_dq(ONE, square_q(x0))));
        return addfast_dq(y0, delta_y);
    }
    copysign(log(asinh_arg(x), ly), x)
}

/// The argument `x + sqrt(x^2 - 1)` whose logarithm is `acosh(x)`; beyond
/// `2^52`, `2 x`.
pub open spec fn acosh_arg_spec(x: (u64, u64)) -> (u64, u64) {
    if enc_lt(x.0, TWO_POW_52) {
        let sq = square_q_spec(x);
        addfast_qq_spec(x, sqrt_q_spec(addfast_qd_spec(sq, fneg(ONE))))
    } else {
        (fmul(x.0, TWO), fmul(x.1, TWO))
    }
}

/// `x + sqrt(x^2 - 1)`, or `2 x` where `x^2 - 1` is `x^2`: its logarithm is
/// `acosh(x)`.
pub fn acosh_arg(x: Df64) -> (r: Df64)
    ensures
        parts(r) == acosh_arg_spec(parts(x)),
{
    if lt_enc(x.hi(), TWO_POW_52) {
        addfast_qq(x, sqrt_q(subfast_qd(square_q(x), ONE)))
    } else {
        mul_pow2(x, TWO)
    }
}

/// `acosh(x)`: the infinities and NaN stay, and otherwise the logarithm
/// of `acosh_arg(x)`, refined from a binary64 approximation `ly` of the
/// logarithm of its leading part.
pub open spec fn acosh_spec(x: (u64, u64), ly: u64) -> (u64, u64) {
    if !enc_is_finite(x.0) {
        x
    } else {
        log_spec(acosh_arg_spec(x), ly)
    }
}

/// The inverse hyperbolic cosine, `log(x + sqrt(x^2 - 1))` (or `log(2 x)`
/// beyond `2^52`), refined from the binary64 logarithm `ly` of the leading
/// part of `acosh_arg(x)`; the infinities and NaN stay.
pub fn acosh(x: Df64, ly: u64) -> (r: Df64)
    requires
        enc_is_finite(x.hi_part()) ==> log_accepts(ly),
    ensures
        parts(r) == acosh_spec(parts(x), ly),
        !enc_is_finite(x.hi_part()) ==> parts(r) == parts(x),
        enc_is_finite(x.hi_part()) ==> parts(r) == log_spec(acosh_arg_spec(parts(x)), ly),
{
    if !is_finite(x) {
        x
    } else {
        log(acosh_arg(x), ly)
    }
}

/// The argument `2|x| / (1 - |x|)` whose `log1p` is `2 atanh(|x|)`.
pub open spec fn atanh_arg_spec(x: (u64, u64)) -> (u64, u64) {
    let xx = abs_parts(x);
    let twox = (fmul(xx.0, TWO), fmul(xx.1, TWO));
    mul_qq_spec(reciprocal_q_spec(addfast_dq_spec(ONE, neg_parts(xx))), twox)
}

/// `2|x| / (1 - |x|)`, whose `log1p` is `2 atanh(|x|)`.
pub fn atanh_arg(x: Df64) -> (r: Df64)
    ensures
        parts(r) == atanh_arg_spec(parts(x)),
{
    let xx = abs(x);
    let twox = mul_pow2(xx, TWO);
    let one_minus_x = subfast_dq(ONE, xx);
    div_qq(twox, one_minus_x)
}

/// `atanh(x)`: NaN stays, infinity with the sign of `x` where `|x|` is
/// one, and otherwise half of `log1p(atanh_arg(x))`, refined from a
/// binary64 approximation `ly` of `log1p` of its leading part, with the
/// sign of `x`.
pub open spec fn atanh_spec(x: (u64, u64), ly: u64) -> (u64, u64) {
    let xx = abs_parts(x);
    if enc_is_nan(x.0) {
        x
    } else if enc_eq(xx.0, ONE) && enc_eq(xx.1, 0) {
        copysign_parts((INFINITY, 0), x)
    } else {
        let l = log1p_spec(atanh_arg_spec(x), ly);
        copysign_parts((fmul(l.0, HALF), fmul(l.1, HALF)), x)
    }
}

/// `atanh(x)` takes the logarithm: `x` is not NaN and `|x|` is not one.
pub open spec fn atanh_takes_log(x: (u64, u64)) -> bool {
    let xx = abs_parts(x);
    !enc_is_nan(x.0) && !(enc_eq(xx.0, ONE) && enc_eq(xx.1, 0))
}

/// The inverse hyperbolic tangent, by `atanh(x) = 1/2 log((1 + x) / (1 -
/// x)) = 1/2 log1p(2x / (1 - x))`, where `log1p` is refined from the
/// binary64 `log1p` `ly` of the leading part of `atanh_arg(x)`.
pub fn atanh(x: Df64, ly: u64) -> (r: Df64)
    requires
        atanh_takes_log(parts(x)) ==> log_accepts(ly),
    ensures
        parts(r) == atanh_spec(parts(x), ly),
{
    if is_nan(x) {
        return x;
    }
    let xx = abs(x);
    if eq_enc(xx.hi(), ONE) && eq_enc(xx.lo(), 0) {
        return copysign(Compensated::new(INFINITY, 0), x);
    }
    let l = log1p(atanh_arg(x), ly);
    copysign(mul_pow2(l, HALF), x)
}

} // verus!
