//! Sign manipulation of double-double numbers.
use crate::arith::{addfast_dd, fast_two_sum, is_negation, neg_parts, neg_q, parts};
use crate::ops::{fldexp, fsub, ftrunc, ldexp_enc, sub_enc, trunc_enc};
use crate::checks::{is_nan, is_sign_negative};
use crate::ieee::{
    bit_length, bitlen, enc_eq, enc_is_infinite, enc_is_nan, enc_is_zero, enc_le, enc_lt, eq_enc,
    exp_field, fields, frac_field, le_enc, lt_enc, sign_bit,
};
use crate::Compensated;
use crate::Df64;
use vstd::prelude::*;

verus! {

/// The parts of `mag`, negated where its sign differs from that of `sgn`.
pub open spec fn copysign_parts(mag: (u64, u64), sgn: (u64, u64)) -> (u64, u64) {
    if sign_bit(mag.0) != sign_bit(sgn.0) {
        neg_parts(mag)
    } else {
        mag
    }
}

/// The parts of `x`, negated where its sign bit is set.
pub open spec fn abs_parts(x: (u64, u64)) -> (u64, u64) {
    if sign_bit(x.0) {
        neg_parts(x)
    } else {
        x
    }
}

/// `mag` with the sign of `sgn`.
///
/// The sign of a double-double number is the sign of its leading part; the
/// compensate may have either sign, so the whole number is negated where
/// the signs differ.
pub fn copysign(mag: Df64, sgn: Df64) -> (r: Df64)
    ensures
        sign_bit(mag.hi_part()) != sign_bit(sgn.hi_part()) ==> is_negation(r.hi_part(), mag.hi_part())
            && is_negation(r.lo_part(), mag.lo_part()),
        sign_bit(mag.hi_part()) == sign_bit(sgn.hi_part()) ==> r == mag,
        parts(r) == copysign_parts(parts(mag), parts(sgn)),
{
    if is_sign_negative(mag) != is_sign_negative(sgn) {
        neg_q(mag)
    } else {
        mag
    }
}

/// The absolute value: `x` negated where its sign bit is set.
pub fn abs(x: Df64) -> (r: Df64)
    ensures
        sign_bit(x.hi_part()) ==> is_negation(r.hi_part(), x.hi_part()) && is_negation(
            r.lo_part(),
            x.lo_part(),
        ),
        !sign_bit(x.hi_part()) ==> r == x,
        parts(r) == abs_parts(parts(x)),
{
    if is_sign_negative(x) {
        neg_q(x)
    } else {
        x
    }
}

/// `a <= b` for double-double numbers, ordered as the pair `(hi, lo)`:
/// by the leading parts, and by the compensates where the leading parts are
/// equal.  False where a part that decides it is NaN.
pub open spec fn le_spec(a: Df64, b: Df64) -> bool {
    enc_lt(a.hi_part(), b.hi_part()) || (enc_eq(a.hi_part(), b.hi_part()) && enc_le(
        a.lo_part(),
        b.lo_part(),
    ))
}

/// `a <= b` for double-double numbers, ordered as the pair `(hi, lo)`.
pub fn le_q(a: Df64, b: Df64) -> (r: bool)
    ensures
        r == le_spec(a, b),
{
    let (ah, bh) = (a.hi(), b.hi());
    if lt_enc(ah, bh) {
        true
    } else if eq_enc(ah, bh) {
        le_enc(a.lo(), b.lo())
    } else {
        false
    }
}

/// The smaller of `a` and `b`.  NaN counts as larger than every number:
/// where one of the two is NaN the other is returned.
pub fn min(a: Df64, b: Df64) -> (r: Df64)
    ensures
        r == (if le_spec(a, b) || enc_is_nan(b.hi_part()) {
            a
        } else {
            b
        }),
{
    if le_q(a, b) || is_nan(b) {
        a
    } else {
        b
    }
}

/// The larger of `a` and `b`.  Where one of the two is NaN the other is
/// returned.
pub fn max(a: Df64, b: Df64) -> (r: Df64)
    ensures
        r == (if le_spec(a, b) || enc_is_nan(a.hi_part()) {
            b
        } else {
            a
        }),
{
    if le_q(a, b) || is_nan(a) {
        b
    } else {
        a
    }
}

/// `a` restricted to `min_..=max_`: `a` where it lies in that interval,
/// `min_` where it is not above `min_`, and `max_` otherwise.  An empty
/// interval, `max_ < min_`, is refused where `a` is not inside it.
pub fn clamp(a: Df64, min_: Df64, max_: Df64) -> (r: Df64)
    requires
        (le_spec(min_, a) && le_spec(a, max_)) || le_spec(min_, max_),
    ensures
        r == (if le_spec(min_, a) && le_spec(a, max_) {
            a
        } else if !le_spec(min_, a) {
            min_
        } else {
            max_
        }),
{
    if le_q(min_, a) && le_q(a, max_) {
        a
    } else {
        if !le_q(min_, a) {
            min_
        } else {
            max_
        }
    }
}

/// The binary exponent of a binary64 number, as `libm::ilogb` gives it:
/// `floor(log2(|b|))` for finite nonzero `b`, `i32::MIN` for zero and NaN,
/// `i32::MAX` for the infinities.
pub open spec fn ilogb_spec(b: u64) -> int {
    if enc_is_nan(b) || enc_is_zero(b) {
        i32::MIN as int
    } else if enc_is_infinite(b) {
        i32::MAX as int
    } else if exp_field(b) == 0 {
        bitlen(frac_field(b)) - 1 - 1074
    } else {
        exp_field(b) - 1023
    }
}

/// The binary exponent of the leading part of `x`.
pub fn ilogb(x: Df64) -> (r: i32)
    ensures
        r == ilogb_spec(x.hi_part()),
{
    let (_s, e, f) = fields(x.hi());
    if e == 0 {
        if f == 0 {
            i32::MIN
        } else {
            let len = bit_length(f);
            proof {
                assert(f < 0x10_0000_0000_0000u64);
                vstd::arithmetic::power2::lemma2_to64();
                vstd::arithmetic::power2::lemma2_to64_rest();
                crate::ieee::lemma_bitlen_bounds(f as nat);
                if len > 52 {
                    vstd::arithmetic::power2::lemma_pow2_strictly_increases(52, (len - 1) as nat);
                }
            }
            len as i32 - 1 - 1074
        }
    } else if e == 0x7ff {
        if f != 0 {
            i32::MIN
        } else {
            i32::MAX
        }
    } else {
        e as i32 - 1023
    }
}

/// The fractional part of each part, `b - trunc(b)`, renormalised.
pub open spec fn fract_spec(x: (u64, u64)) -> (u64, u64) {
    fast_two_sum(fsub(x.0, ftrunc(x.0)), fsub(x.1, ftrunc(x.1)))
}

/// The fractional part.
///
/// The fractional part of `x` is the sum of the fractional parts of both
/// parts; where the leading part is an integer its fractional part is zero,
/// and the sum is renormalised by a fast addition.
pub fn fract(x: Df64) -> (r: Df64)
    ensures
        parts(r) == fract_spec(parts(x)),
{
    let hi = sub_enc(x.hi(), trunc_enc(x.hi()));
    let lo = sub_enc(x.lo(), trunc_enc(x.lo()));
    addfast_dd(hi, lo)
}

/// Scales both parts by `2^n` (`ldexp`), each rounded once.
pub fn ldexp(a: Df64, n: i32) -> (r: Df64)
    ensures
        parts(r) == (fldexp(a.hi_part(), n as int), fldexp(a.lo_part(), n as int)),
{
    Compensated::new(ldexp_enc(a.hi(), n), ldexp_enc(a.lo(), n))
}

/// Scales both parts by `2^n` (`scalbn`, the same as `ldexp`).
pub fn scalbn(a: Df64, n: i32) -> (r: Df64)
    ensures
        parts(r) == (fldexp(a.hi_part(), n as int), fldexp(a.lo_part(), n as int)),
{
    Compensated::new(ldexp_enc(a.hi(), n), ldexp_enc(a.lo(), n))
}

} // verus!
