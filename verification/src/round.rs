//! Rounding double-double numbers to integers.
//!
//! Where the leading part is not an integer, rounding it gives the answer,
//! since the compensate is below half a unit in its last place; this also
//! covers NaN, which is not equal to itself.  Where the leading part is an
//! integer, the compensate is rounded instead, and the two parts are
//! renormalised.
use crate::accuracy::{lemma_normalized_half_ulp, same_number};
use crate::arith::{add_qd, add_qd_spec, addfast_dd, fast_two_sum, parts, two_sum};
use crate::ieee::{
    enc_eq, enc_is_finite, enc_is_infinite, enc_is_nan, enc_lt, eq_enc, exp_field, frac_field, lemma_units_bounds, lt_enc, scaled, sign_bit, significand,
    unit_shift, units,
};
use crate::laws::{law_fast_two_sum_exact, law_fast_two_sum_normalized};
use crate::ops::{
    ceil_enc, ceil_units, fadd, fceil, fneg, fsub, lemma_fneg, ffloor, floor_enc, floor_units, ftrunc, trunc_units, lemma_is_integer, lemma_round_exact,
    magnitude, round_signed, trunc_enc,
};
use crate::rounding::{dist, lemma_pow2_le, lemma_representable_small, overflows, representable};
use crate::Compensated;
use crate::Df64;
use vstd::arithmetic::div_mod::*;
use vstd::arithmetic::mul::*;
use vstd::arithmetic::power2::*;
use vstd::prelude::*;

verus! {

/// The double-double rounding of `x` to an integer, given the rounding
/// `hi` of its leading part and the rounding `lo` of its compensate.
pub open spec fn round_parts(x: (u64, u64), hi: u64, lo: u64) -> (u64, u64) {
    if !enc_eq(hi, x.0) {
        (hi, 0)
    } else {
        fast_two_sum(hi, lo)
    }
}

/// Rounding up.
pub open spec fn ceil_spec(x: (u64, u64)) -> (u64, u64) {
    round_parts(x, fceil(x.0), fceil(x.1))
}

/// Rounding down.
pub open spec fn floor_spec(x: (u64, u64)) -> (u64, u64) {
    round_parts(x, ffloor(x.0), ffloor(x.1))
}

/// Rounding toward zero: where the leading part is an integer, the
/// compensate is rounded away from the direction of the leading part, so
/// that the sum moves toward zero.
pub open spec fn trunc_spec(x: (u64, u64)) -> (u64, u64) {
    round_parts(
        x,
        ftrunc(x.0),
        if enc_lt(x.0, 0) {
            fceil(x.1)
        } else {
            ffloor(x.1)
        },
    )
}

/// One half with the sign of `b`.
pub open spec fn half_with_sign(b: u64) -> u64 {
    if sign_bit(b) {
        0xbfe0_0000_0000_0000u64
    } else {
        0x3fe0_0000_0000_0000u64
    }
}

/// Rounding to nearest, ties away from zero: a half with the sign of `x`
/// is added, and the sum is truncated.
pub open spec fn round_spec(x: (u64, u64)) -> (u64, u64) {
    trunc_spec(add_qd_spec(x, half_with_sign(x.0)))
}

/// The smallest integer not below `x`.
pub fn ceil(x: Df64) -> (r: Df64)
    ensures
        parts(r) == ceil_spec(parts(x)),
{
    let hi = ceil_enc(x.hi());
    if !eq_enc(hi, x.hi()) {
        return Compensated::new(hi, 0);
    }
    addfast_dd(hi, ceil_enc(x.lo()))
}

/// The largest integer not above `x`.
pub fn floor(x: Df64) -> (r: Df64)
    ensures
        parts(r) == floor_spec(parts(x)),
{
    let hi = floor_enc(x.hi());
    if !eq_enc(hi, x.hi()) {
        return Compensated::new(hi, 0);
    }
    addfast_dd(hi, floor_enc(x.lo()))
}

/// The integer part of `x`.
pub fn trunc(x: Df64) -> (r: Df64)
    ensures
        parts(r) == trunc_spec(parts(x)),
{
    let hi = trunc_enc(x.hi());
    if !eq_enc(hi, x.hi()) {
        return Compensated::new(hi, 0);
    }
    let lo = if lt_enc(x.hi(), 0) {
        ceil_enc(x.lo())
    } else {
        floor_enc(x.lo())
    };
    addfast_dd(hi, lo)
}

/// `x` rounded to the nearest integer, ties away from zero.
pub fn round(x: Df64) -> (r: Df64)
    ensures
        parts(r) == round_spec(parts(x)),
{
    let nudge: u64 = if sign_bit_of(x.hi()) {
        0xbfe0_0000_0000_0000u64
    } else {
        0x3fe0_0000_0000_0000u64
    };
    trunc(add_qd(x, nudge))
}

fn sign_bit_of(b: u64) -> (r: bool)
    ensures
        r == sign_bit(b),
{
    b >= 0x8000_0000_0000_0000u64
}

// ---------------------------------------------------------------------------
// The value of the rounding

/// Rounding down to an integer a value below 2^52 in magnitude gives a
/// binary64 magnitude.
proof fn lemma_floor_units_small(v: int)
    requires
        magnitude(v) < pow2(52) * pow2(1074),
    ensures
        representable(magnitude(floor_units(v))),
        !overflows(magnitude(floor_units(v))),
{
    lemma2_to64();
    lemma2_to64_rest();
    let p = pow2(1074) as int;
    lemma_pow2_pos(1074);
    let q = v / p;
    lemma_fundamental_div_mod(v, p);
    lemma_mod_bound(v, p);
    assert(p * q == q * p) by {
        lemma_mul_is_commutative(p, q);
    }
    assert(q < pow2(52)) by {
        if q >= pow2(52) {
            lemma_mul_inequality(pow2(52) as int, q, p);
        }
    }
    assert(q >= -pow2(52)) by {
        if q < -pow2(52) {
            lemma_mul_inequality(q + 1, -pow2(52) as int, p);
            lemma_mul_is_distributive_add_other_way(p, q, 1);
            lemma_mul_unary_negation(pow2(52) as int, p);
        }
    }
    let mq: nat = if q < 0 {
        (-q) as nat
    } else {
        q as nat
    };
    assert(magnitude(floor_units(v)) == mq * p) by {
        lemma_mul_unary_negation(-q, p);
    }
    lemma_representable_small(mq, 1074);
    assert(mq * p <= pow2(52) * p) by {
        lemma_mul_inequality(mq as int, pow2(52) as int, p);
    }
    assert(!overflows(mq * pow2(1074))) by {
        lemma_pow2_adds(52, 1074);
        lemma_pow2_strictly_increases(1126, 2098);
    }
}

/// A finite binary64 number whose lowest significand bit weighs less than 1
/// is below 2^52 in magnitude.
proof fn lemma_fraction_small(b: u64)
    requires
        enc_is_finite(b),
        unit_shift(b) < 1074,
    ensures
        units(b) < pow2(52) * pow2(1074),
{
    lemma2_to64();
    lemma2_to64_rest();
    let sh = unit_shift(b);
    let sig = significand(b) as int;
    assert(sig < pow2(53)) by {
        assert(b % 0x10_0000_0000_0000 < 0x10_0000_0000_0000) by (bit_vector);
    }
    lemma_pow2_le(sh, 1073);
    lemma_pow2_pos(sh);
    lemma_mul_strict_inequality(sig, pow2(53) as int, pow2(1073) as int);
    lemma_mul_inequality(pow2(sh) as int, pow2(1073) as int, sig);
    lemma_mul_is_commutative(sig, pow2(sh) as int);
    lemma_mul_is_commutative(sig, pow2(1073) as int);
    lemma_pow2_adds(53, 1073);
    lemma_pow2_adds(52, 1074);
}

/// The rounding down of a finite binary64 number is finite, and its value
/// is that of the number rounded down to an integer.
pub proof fn lemma_ffloor_value(b: u64)
    requires
        enc_is_finite(b),
    ensures
        enc_is_finite(ffloor(b)),
        scaled(ffloor(b)) == floor_units(scaled(b)),
{
    if unit_shift(b) >= 1074 {
        lemma_is_integer(b);
    } else {
        lemma_fraction_small(b);
        lemma_floor_units_small(scaled(b));
        lemma_round_exact(floor_units(scaled(b)), sign_bit(b));
    }
}

/// The rounding up of a finite binary64 number is finite, and its value
/// is that of the number rounded up to an integer.
pub proof fn lemma_fceil_value(b: u64)
    requires
        enc_is_finite(b),
    ensures
        enc_is_finite(fceil(b)),
        scaled(fceil(b)) == ceil_units(scaled(b)),
{
    if unit_shift(b) >= 1074 {
        lemma_is_integer(b);
    } else {
        lemma_fraction_small(b);
        lemma_floor_units_small(-scaled(b));
        lemma_round_exact(ceil_units(scaled(b)), sign_bit(b));
    }
}

/// Where `h` is a multiple of `s`, but not of `2^1074`, adding `l` of at
/// most half of `s` does not carry `h` past an integer.
proof fn lemma_floor_unmoved(h: int, l: int, sh: nat)
    requires
        sh < 1074,
        h % (pow2(sh) as int) == 0,
        floor_units(h) != h,
        2 * magnitude(l) <= pow2(sh),
    ensures
        floor_units(h + l) == floor_units(h),
{
    let p = pow2(1074) as int;
    let s = pow2(sh) as int;
    lemma_pow2_pos(1074);
    lemma_pow2_pos(sh);
    let q = h / p;
    lemma_fundamental_div_mod(h, p);
    lemma_mod_bound(h, p);
    lemma_mul_is_commutative(p, q);
    let jh = h / s;
    lemma_fundamental_div_mod(h, s);
    lemma_mul_is_commutative(s, jh);
    let d = (1074 - sh) as nat;
    lemma_pow2_adds(d, sh);
    let pd = pow2(d) as int;
    lemma_pow2_pos(d);
    assert(p == pd * s);
    let r = h - q * p;
    assert(r == (jh - q * pd) * s) by {
        lemma_mul_is_associative(q, pd, s);
        lemma_mul_is_distributive_sub_other_way(s, jh, q * pd);
    }
    let k = jh - q * pd;
    assert(0 < r < p);
    assert(k >= 1) by {
        if k <= 0 {
            lemma_mul_inequality(k, 0, s);
        }
    }
    assert(k <= pd - 1) by {
        if k >= pd {
            lemma_mul_inequality(pd, k, s);
        }
    }
    assert(s <= r <= p - s) by {
        lemma_mul_inequality(1, k, s);
        lemma_mul_inequality(k, pd - 1, s);
        lemma_mul_is_distributive_sub_other_way(s, pd, 1);
    }
    lemma_fundamental_div_mod_converse(h + l, p, q, r + l);
}

/// Where `h` is an integer, adding `l` commutes with rounding down; where
/// `h` is not zero and `l` at most half of it, `l` rounded down is no
/// larger than `h` in magnitude.
proof fn lemma_floor_shift(h: int, l: int)
    requires
        floor_units(h) == h,
        2 * magnitude(l) <= magnitude(h),
    ensures
        floor_units(h + l) == h + floor_units(l),
        magnitude(floor_units(l)) <= magnitude(h),
{
    let p = pow2(1074) as int;
    lemma_pow2_pos(1074);
    let q = h / p;
    assert(h == q * p);
    let a = l / p;
    lemma_fundamental_div_mod(l, p);
    lemma_mod_bound(l, p);
    lemma_mul_is_commutative(p, a);
    assert(h + l == p * (q + a) + l % p) by {
        lemma_mul_is_commutative(p, q);
        lemma_mul_is_distributive_add(p, q, a);
    }
    lemma_fundamental_div_mod_converse(h + l, p, q + a, l % p);
    lemma_mul_is_distributive_add_other_way(p, q, a);
    if h == 0 {
        assert(l == 0);
        assert(a == 0) by {
            lemma_fundamental_div_mod_converse(0, p, 0, 0);
        }
        lemma_mul_basics(p);
    } else {
        let mq = if q < 0 {
            -q
        } else {
            q
        };
        let ma = if a < 0 {
            -a
        } else {
            a
        };
        assert(magnitude(h) == mq * p) by {
            lemma_mul_unary_negation(-q, p);
        }
        assert(magnitude(floor_units(l)) == ma * p) by {
            lemma_mul_unary_negation(-a, p);
        }
        assert(mq >= 1) by {
            if mq == 0 {
                lemma_mul_basics(p);
            }
        }
        assert(2 * (ma * p) < (mq + 2) * p) by {
            lemma_mul_is_distributive_add_other_way(p, mq, 2);
        }
        assert(2 * ma < mq + 2) by {
            lemma_mul_is_associative(2, ma, p);
            lemma_mul_strict_inequality_converse(2 * ma, mq + 2, p);
        }
        lemma_mul_inequality(ma, mq, p);
    }
}

/// A finite binary64 number is a multiple of the weight of its lowest
/// significand bit, and a nonzero one is at least that weight.
proof fn lemma_on_grid(b: u64)
    requires
        enc_is_finite(b),
    ensures
        scaled(b) % (pow2(unit_shift(b)) as int) == 0,
        scaled(b) != 0 ==> units(b) >= pow2(unit_shift(b)),
{
    let s = pow2(unit_shift(b)) as int;
    lemma_pow2_pos(unit_shift(b));
    let sig = significand(b) as int;
    let j: int = if sign_bit(b) {
        -sig
    } else {
        sig
    };
    assert(scaled(b) == j * s) by {
        lemma_mul_unary_negation(sig, s);
    }
    lemma_mod_multiples_basic(j, s);
    if scaled(b) != 0 {
        assert(sig >= 1) by {
            if sig == 0 {
                lemma_mul_basics(s);
            }
        }
        lemma_mul_inequality(1, sig, s);
    }
}

/// The negation of a multiple of `s` is a multiple of `s`.
proof fn lemma_neg_multiple(h: int, s: int)
    requires
        s > 0,
        h % s == 0,
    ensures
        (-h) % s == 0,
{
    lemma_fundamental_div_mod(h, s);
    lemma_mul_unary_negation(s, h / s);
    lemma_mul_is_commutative(s, -(h / s));
    lemma_mod_multiples_basic(-(h / s), s);
}

/// Both parts of `r` are finite integers, and `r` is normalized where it
/// is not zero: the binary64 sum of its parts is its leading part.
pub open spec fn normalized_integer(r: (u64, u64)) -> bool {
    &&& enc_is_finite(r.0)
    &&& enc_is_finite(r.1)
    &&& floor_units(scaled(r.0)) == scaled(r.0)
    &&& floor_units(scaled(r.1)) == scaled(r.1)
    &&& scaled(r.0) + scaled(r.1) != 0 ==> fadd(r.0, r.1) == r.0
}

/// A multiple of `2^1074` is an integer.
proof fn lemma_int_mul(q: int)
    ensures
        floor_units(q * (pow2(1074) as int)) == q * (pow2(1074) as int),
{
    lemma_pow2_pos(1074);
    lemma_fundamental_div_mod_converse(q * (pow2(1074) as int), pow2(1074) as int, q, 0);
}

/// Rounding to an integer gives an integer.
proof fn lemma_rounded_int(v: int)
    ensures
        floor_units(floor_units(v)) == floor_units(v),
        floor_units(ceil_units(v)) == ceil_units(v),
        floor_units(trunc_units(v)) == trunc_units(v),
{
    let p = pow2(1074) as int;
    lemma_int_mul(v / p);
    lemma_int_mul(-((-v) / p));
    lemma_mul_unary_negation((-v) / p, p);
}

/// A finite nonzero binary64 number is the rounding of its own value.
proof fn lemma_round_self(b: u64, zneg: bool)
    requires
        enc_is_finite(b),
        scaled(b) != 0,
    ensures
        round_signed(scaled(b), 0, zneg) == b,
{
    crate::rounding::lemma_rnd_exact(b);
    crate::rounding::lemma_enc_of_units(b);
    lemma_units_bounds(b);
}

/// A finite integer `hi` with a zero compensate is a normalized integer
/// pair.
proof fn lemma_int_single(hi: u64)
    requires
        enc_is_finite(hi),
        floor_units(scaled(hi)) == scaled(hi),
    ensures
        normalized_integer((hi, 0u64)),
{
    lemma_zero_value();
    lemma_int_mul(0);
    lemma_mul_basics(pow2(1074) as int);
    if scaled(hi) != 0 {
        lemma_round_self(hi, sign_bit(hi) && sign_bit(0u64));
    }
}

/// Fast2Sum of two ordered finite integers gives a normalized integer pair
/// of the same sum.
proof fn lemma_int_pair(hi: u64, lo: u64)
    requires
        enc_is_finite(hi),
        enc_is_finite(lo),
        floor_units(scaled(hi)) == scaled(hi),
        floor_units(scaled(lo)) == scaled(lo),
        units(lo) <= units(hi),
        enc_is_finite(fast_two_sum(hi, lo).0),
    ensures
        normalized_integer(fast_two_sum(hi, lo)),
        scaled(fast_two_sum(hi, lo).0) + scaled(fast_two_sum(hi, lo).1) == scaled(hi) + scaled(lo),
{
    let p = pow2(1074) as int;
    lemma_pow2_pos(1074);
    law_fast_two_sum_exact(hi, lo);
    let r = fast_two_sum(hi, lo);
    let qh = scaled(hi) / p;
    let ql = scaled(lo) / p;
    assert(scaled(hi) + scaled(lo) == (qh + ql) * p) by {
        lemma_mul_is_distributive_add_other_way(p, qh, ql);
    }
    let v = scaled(hi) + scaled(lo);
    let j: nat = if qh + ql < 0 {
        (-(qh + ql)) as nat
    } else {
        (qh + ql) as nat
    };
    assert(magnitude(v) == j * p) by {
        lemma_mul_unary_negation(-(qh + ql), p);
    }
    let k = crate::accuracy::lemma_rnd_multiple(j, 1074);
    crate::ops::lemma_round_signed_value(v, sign_bit(hi) && sign_bit(lo));
    let ks: int = if v < 0 {
        -k
    } else {
        k as int
    };
    assert(scaled(r.0) == ks * p) by {
        lemma_mul_unary_negation(k as int, p);
    }
    lemma_int_mul(ks);
    assert(scaled(r.1) == (qh + ql - ks) * p) by {
        lemma_mul_is_distributive_sub_other_way(p, qh + ql, ks);
    }
    lemma_int_mul(qh + ql - ks);
    if v != 0 {
        law_fast_two_sum_normalized(hi, lo);
    }
}

/// Rounding down a normalized finite double-double number (`x.hi == x.hi +
/// x.lo` in binary64) gives exactly the sum of its parts rounded down to an
/// integer: in units of `2^-1074`, with `r` the result,
/// `r.hi + r.lo == floor(x.hi + x.lo)`.  Where `x.hi` is not an integer,
/// `x.lo` is too small to carry the sum past an integer; where it is one,
/// the Fast2Sum of `x.hi` and the rounded-down `x.lo` finds them ordered.
/// Both parts of the result are integers, and the result is normalized
/// where it is not zero.
pub proof fn law_floor_exact(xh: u64, xl: u64)
    requires
        enc_is_finite(xh),
        enc_is_finite(xl),
        fadd(xh, xl) == xh,
        enc_is_finite(floor_spec((xh, xl)).0),
    ensures
        enc_is_finite(floor_spec((xh, xl)).1),
        scaled(floor_spec((xh, xl)).0) + scaled(floor_spec((xh, xl)).1) == floor_units(
            scaled(xh) + scaled(xl),
        ),
        normalized_integer(floor_spec((xh, xl))),
{
    let h = scaled(xh);
    let l = scaled(xl);
    lemma_normalized_half_ulp(xh, xl);
    lemma_on_grid(xh);
    let hi = ffloor(xh);
    lemma_ffloor_value(xh);
    if !enc_eq(hi, xh) {
        if unit_shift(xh) >= 1074 {
            lemma_is_integer(xh);
        }
        lemma_floor_unmoved(h, l, unit_shift(xh));
        lemma_zero_value();
        assert(floor_spec((xh, xl)) == (hi, 0u64));
        lemma_rounded_int(h);
        lemma_int_single(hi);
    } else {
        let lo = ffloor(xl);
        lemma_ffloor_value(xl);
        assert(2 * magnitude(l) <= magnitude(h)) by {
            lemma_units_bounds(xh);
            lemma2_to64();
        }
        lemma_floor_shift(h, l);
        lemma_rounded_int(l);
        lemma_int_pair(hi, lo);
        assert(floor_spec((xh, xl)) == fast_two_sum(hi, lo));
    }
}

/// Rounding up a normalized finite double-double number gives exactly the
/// sum of its parts rounded up to an integer: in units of `2^-1074`, with
/// `r` the result, `r.hi + r.lo == ceil(x.hi + x.lo) == -floor(-(x.hi +
/// x.lo))`; as `law_floor_exact`, on the negated values, with integer
/// parts, normalized where the result is not zero.
pub proof fn law_ceil_exact(xh: u64, xl: u64)
    requires
        enc_is_finite(xh),
        enc_is_finite(xl),
        fadd(xh, xl) == xh,
        enc_is_finite(ceil_spec((xh, xl)).0),
    ensures
        enc_is_finite(ceil_spec((xh, xl)).1),
        scaled(ceil_spec((xh, xl)).0) + scaled(ceil_spec((xh, xl)).1) == ceil_units(
            scaled(xh) + scaled(xl),
        ),
        ceil_units(scaled(xh) + scaled(xl)) == -floor_units(-(scaled(xh) + scaled(xl))),
        normalized_integer(ceil_spec((xh, xl))),
{
    lemma_rounded_int(scaled(xh));
    lemma_rounded_int(scaled(xl));
    let h = scaled(xh);
    let l = scaled(xl);
    lemma_normalized_half_ulp(xh, xl);
    lemma_on_grid(xh);
    lemma_pow2_pos(unit_shift(xh));
    lemma_neg_multiple(h, pow2(unit_shift(xh)) as int);
    let hi = fceil(xh);
    lemma_fceil_value(xh);
    assert(-h + -l == -(h + l));
    if !enc_eq(hi, xh) {
        if unit_shift(xh) >= 1074 {
            lemma_is_integer(xh);
        }
        lemma_floor_unmoved(-h, -l, unit_shift(xh));
        lemma_zero_value();
        assert(ceil_spec((xh, xl)) == (hi, 0u64));
        lemma_int_single(hi);
    } else {
        let lo = fceil(xl);
        lemma_fceil_value(xl);
        assert(2 * magnitude(-l) <= magnitude(-h)) by {
            lemma_units_bounds(xh);
            lemma2_to64();
        }
        lemma_floor_shift(-h, -l);
        lemma_int_pair(hi, lo);
        assert(ceil_spec((xh, xl)) == fast_two_sum(hi, lo));
    }
}

/// The rounding toward zero of a finite binary64 number is finite, and its
/// value is that of the number rounded toward zero to an integer.
pub proof fn lemma_ftrunc_value(b: u64)
    requires
        enc_is_finite(b),
    ensures
        enc_is_finite(ftrunc(b)),
        scaled(ftrunc(b)) == trunc_units(scaled(b)),
{
    if unit_shift(b) >= 1074 {
        lemma_is_integer(b);
    } else {
        lemma_fraction_small(b);
        lemma_floor_units_small(scaled(b));
        lemma_floor_units_small(-scaled(b));
        lemma_round_exact(trunc_units(scaled(b)), sign_bit(b));
    }
}

/// Rounding toward zero a normalized finite double-double number gives
/// exactly the sum of its parts rounded toward zero to an integer: in units
/// of `2^-1074`, with `r` the result, `r.hi + r.lo == trunc(x.hi + x.lo)`.
/// The sum has the sign of `x.hi`, so that this is `law_floor_exact` for a
/// positive `x.hi` and `law_ceil_exact` for a negative one, with integer
/// parts, normalized where the result is not zero.
pub proof fn law_trunc_exact(xh: u64, xl: u64)
    requires
        enc_is_finite(xh),
        enc_is_finite(xl),
        fadd(xh, xl) == xh,
        enc_is_finite(trunc_spec((xh, xl)).0),
    ensures
        enc_is_finite(trunc_spec((xh, xl)).1),
        scaled(trunc_spec((xh, xl)).0) + scaled(trunc_spec((xh, xl)).1) == trunc_units(
            scaled(xh) + scaled(xl),
        ),
        normalized_integer(trunc_spec((xh, xl))),
{
    lemma_rounded_int(scaled(xh));
    lemma_rounded_int(scaled(xl));
    let h = scaled(xh);
    let l = scaled(xl);
    lemma_normalized_half_ulp(xh, xl);
    lemma_on_grid(xh);
    lemma_pow2_pos(unit_shift(xh));
    lemma_neg_multiple(h, pow2(unit_shift(xh)) as int);
    assert(2 * magnitude(l) <= magnitude(h)) by {
        lemma_units_bounds(xh);
        lemma2_to64();
    }
    assert(h > 0 ==> h + l > 0);
    assert(h < 0 ==> h + l < 0);
    assert(-h + -l == -(h + l));
    lemma_zero_value();
    assert(enc_lt(xh, 0u64) == (h < 0));
    let hi = ftrunc(xh);
    lemma_ftrunc_value(xh);
    if !enc_eq(hi, xh) {
        if unit_shift(xh) >= 1074 {
            lemma_is_integer(xh);
        }
        if h < 0 {
            lemma_floor_unmoved(-h, -l, unit_shift(xh));
        } else {
            lemma_floor_unmoved(h, l, unit_shift(xh));
        }
        lemma_zero_value();
        assert(trunc_spec((xh, xl)) == (hi, 0u64));
        lemma_int_single(hi);
    } else {
        if h < 0 {
            let lo = fceil(xl);
            lemma_fceil_value(xl);
            lemma_floor_shift(-h, -l);
            lemma_int_pair(hi, lo);
            assert(trunc_spec((xh, xl)) == fast_two_sum(hi, lo));
        } else {
            let lo = ffloor(xl);
            lemma_ffloor_value(xl);
            lemma_floor_shift(h, l);
            lemma_int_pair(hi, lo);
            assert(trunc_spec((xh, xl)) == fast_two_sum(hi, lo));
        }
    }
}

/// Rounding up is rounding down the negation, negated: for every `b`
/// but NaN, `fceil(b) == -ffloor(-b)`.
proof fn lemma_fceil_neg(b: u64)
    requires
        !enc_is_nan(b),
    ensures
        fceil(b) == fneg(ffloor(fneg(b))),
{
    lemma_fneg(b);
    if enc_is_finite(b) {
        crate::ops::lemma_fneg_value(b);
        crate::laws::lemma_round_signed_neg(floor_units(-scaled(b)), 0, !sign_bit(b));
    }
}

/// `a` and `-c` are the same number, and so are `b` and `-d`, and not both
/// of `a` and `b` are infinite: then so are `a + b` and `-(c + d)`, which is
/// not NaN.
proof fn lemma_fadd_negated(a: u64, b: u64, c: u64, d: u64)
    requires
        !enc_is_nan(a),
        !enc_is_nan(b),
        !(enc_is_infinite(a) && enc_is_infinite(b)),
        same_number(a, fneg(c)),
        same_number(b, fneg(d)),
    ensures
        same_number(fadd(a, b), fneg(fadd(c, d))),
        !enc_is_nan(fadd(a, b)),
{
    lemma_fneg(c);
    lemma_fneg(d);
    if enc_is_finite(a) && enc_is_finite(b) {
        crate::ops::lemma_fneg_value(c);
        crate::ops::lemma_fneg_value(d);
        let v = scaled(c) + scaled(d);
        crate::laws::lemma_round_signed_neg(v, 0, sign_bit(c) && sign_bit(d));
        crate::ops::lemma_round_signed_value(-v, sign_bit(a) && sign_bit(b));
        crate::ops::lemma_round_signed_value(-v, !(sign_bit(c) && sign_bit(d)));
        if v == 0 {
            crate::rounding::lemma_rnd_zero(0);
            lemma_pow2_pos(2098);
        }
    }
}

/// `a - b` and `-(c - d)` as `lemma_fadd_negated`.
proof fn lemma_fsub_negated(a: u64, b: u64, c: u64, d: u64)
    requires
        !enc_is_nan(a),
        !enc_is_nan(b),
        !(enc_is_infinite(a) && enc_is_infinite(b)),
        same_number(a, fneg(c)),
        same_number(b, fneg(d)),
    ensures
        same_number(fsub(a, b), fneg(fsub(c, d))),
        !enc_is_nan(fsub(a, b)),
{
    lemma_fneg(b);
    lemma_fneg(d);
    if b != fneg(d) {
        crate::ops::lemma_fneg_value(b);
        crate::ops::lemma_fneg_value(fneg(d));
    }
    lemma_fadd_negated(a, fneg(b), c, fneg(d));
}

/// Rounding up a double-double number with finite parts is rounding down
/// its negation, negated, part by part, up to the sign of a zero part:
/// `ceil(x)` and `-floor(-x)` have the same parts.
pub proof fn law_ceil_is_neg_floor_neg(xh: u64, xl: u64)
    requires
        enc_is_finite(xh),
        enc_is_finite(xl),
    ensures
        same_number(ceil_spec((xh, xl)).0, fneg(floor_spec((fneg(xh), fneg(xl))).0)),
        same_number(ceil_spec((xh, xl)).1, fneg(floor_spec((fneg(xh), fneg(xl))).1)),
{
    let nh = fneg(xh);
    let nl = fneg(xl);
    lemma_fneg(xh);
    lemma_fneg(xl);
    crate::ops::lemma_fneg_value(xh);
    crate::ops::lemma_fneg_value(xl);
    lemma_fceil_neg(xh);
    lemma_fceil_neg(xl);
    lemma_fceil_value(xh);
    lemma_fceil_value(xl);
    lemma_ffloor_value(nh);
    lemma_ffloor_value(nl);
    let hi = fceil(xh);
    let lo = fceil(xl);
    let hi2 = ffloor(nh);
    let lo2 = ffloor(nl);
    lemma_fneg(hi2);
    lemma_fneg(lo2);
    assert(enc_eq(hi, xh) == enc_eq(hi2, nh));
    if !enc_eq(hi, xh) {
        lemma_zero_value();
        lemma_fneg(0u64);
        crate::ops::lemma_fneg_value(0u64);
    } else {
        assert(same_number(hi, fneg(hi2)));
        assert(same_number(lo, fneg(lo2)));
        let s = fadd(hi, lo);
        let s2 = fadd(hi2, lo2);
        lemma_fadd_negated(hi, lo, hi2, lo2);
        lemma_fsub_negated(s, hi, s2, hi2);
        lemma_fsub_negated(lo, fsub(s, hi), lo2, fsub(s2, hi2));
    }
}

/// One half with the sign of `b` is `2^1073` units with that sign.
proof fn lemma_half_value(b: u64)
    ensures
        enc_is_finite(half_with_sign(b)),
        scaled(half_with_sign(b)) == (if sign_bit(b) {
            -pow2(1073)
        } else {
            pow2(1073) as int
        }),
{
    lemma2_to64();
    lemma2_to64_rest();
    let c = half_with_sign(b);
    assert(exp_field(c) == 1022 && frac_field(c) == 0 && sign_bit(c) == sign_bit(b));
    lemma_pow2_adds(52, 1021);
}

/// Rounding a normalized finite double-double number to the nearest
/// integer, `round`, gives an integer, with integer parts, normalized where
/// it is not zero, within one half of `x.hi + x.lo`, up to the error of
/// the sum that adds the half: in units of `2^-1074`, with `r` the result,
/// `z = x.hi + x.lo + copysign(1/2, x.hi)` and `u = 2^-53`,
/// `|(r.hi + r.lo) - (x.hi + x.lo)| <= 1/2 + 4 u^2 |z|`.  This holds where
/// no step overflows.
pub proof fn law_round_nearest(xh: u64, xl: u64)
    requires
        enc_is_finite(xh),
        enc_is_finite(xl),
        fadd(xh, xl) == xh,
        enc_is_finite(two_sum(xh, half_with_sign(xh)).0),
        enc_is_finite(fsub(two_sum(xh, half_with_sign(xh)).0, half_with_sign(xh))),
        enc_is_finite(fadd(xl, two_sum(xh, half_with_sign(xh)).1)),
        enc_is_finite(add_qd_spec((xh, xl), half_with_sign(xh)).0),
        enc_is_finite(round_spec((xh, xl)).0),
    ensures
        normalized_integer(round_spec((xh, xl))),
        floor_units(scaled(round_spec((xh, xl)).0) + scaled(round_spec((xh, xl)).1)) == scaled(
            round_spec((xh, xl)).0,
        ) + scaled(round_spec((xh, xl)).1),
        ({
            let x = scaled(xh) + scaled(xl);
            let z = x + scaled(half_with_sign(xh));
            let v = scaled(round_spec((xh, xl)).0) + scaled(round_spec((xh, xl)).1);
            pow2(106) * (2 * dist(v, x)) <= pow2(106) * pow2(1074) + 8 * magnitude(z)
        }),
{
    lemma2_to64();
    lemma2_to64_rest();
    let p = pow2(1074) as int;
    let hp = pow2(1073) as int;
    lemma_pow2_adds(1, 1073);
    lemma_pow2_pos(1073);
    lemma_pow2_pos(106);
    let h = scaled(xh);
    let l = scaled(xl);
    let y = half_with_sign(xh);
    lemma_half_value(xh);
    let x = h + l;
    let z = x + scaled(y);
    // x has the sign of x.hi, so that |z| >= 1/2
    lemma_normalized_half_ulp(xh, xl);
    assert(2 * magnitude(l) <= magnitude(h)) by {
        lemma_units_bounds(xh);
    }
    assert(sign_bit(xh) ==> x <= 0 && z <= -hp);
    assert(!sign_bit(xh) ==> x >= 0 && z >= hp);
    crate::accuracy::law_add_qd_relative_error(xh, xl, y);
    let a = add_qd_spec((xh, xl), y);
    let av = scaled(a.0) + scaled(a.1);
    let e = dist(av, z);
    assert(pow2(106) * e <= 4 * magnitude(z));
    // the sum keeps the sign of z
    assert(e < magnitude(z)) by {
        if e >= magnitude(z) {
            let mz = magnitude(z) as int;
            lemma_mul_inequality(mz, e, pow2(106) as int);
            lemma_pow2_le(3, 106);
            lemma_mul_inequality(8, pow2(106) as int, mz);
            lemma_mul_is_commutative(mz, pow2(106) as int);
            lemma_mul_is_commutative(e, pow2(106) as int);
        }
    }
    assert(av != 0);
    law_trunc_exact(a.0, a.1);
    assert(round_spec((xh, xl)) == trunc_spec(a));
    let v = trunc_units(av);
    lemma_rounded_int(av);
    lemma_trunc_near(av);
    lemma_round_bound(x, z, av, v, e, sign_bit(xh));
    assert(pow2(106) * (2 * dist(v, x)) <= pow2(106) * p + 2 * (pow2(106) * e)) by {
        lemma_mul_inequality(2 * dist(v, x), p + 2 * e, pow2(106) as int);
        lemma_mul_is_commutative(2 * dist(v, x), pow2(106) as int);
        lemma_mul_is_distributive_add(pow2(106) as int, p, 2 * e);
        lemma_mul_is_associative(pow2(106) as int, 2, e);
        lemma_mul_is_commutative(pow2(106) as int, 2);
        lemma_mul_is_associative(2, pow2(106) as int, e);
    }
}

/// Rounding toward zero moves a value by less than one, toward zero.
proof fn lemma_trunc_near(w: int)
    ensures
        dist(trunc_units(w), w) < pow2(1074),
        w > 0 ==> 0 <= trunc_units(w) <= w,
        w < 0 ==> w <= trunc_units(w) <= 0,
{
    let p = pow2(1074) as int;
    lemma_pow2_pos(1074);
    lemma_fundamental_div_mod(w, p);
    lemma_mod_bound(w, p);
    lemma_mul_is_commutative(p, w / p);
    lemma_fundamental_div_mod(-w, p);
    lemma_mod_bound(-w, p);
    lemma_mul_is_commutative(p, (-w) / p);
    lemma_mul_unary_negation((-w) / p, p);
    if w > 0 {
        assert(w / p >= 0) by {
            if w / p < 0 {
                lemma_mul_inequality(w / p, -1, p);
            }
        }
        lemma_mul_nonnegative(w / p, p);
    }
    if w < 0 {
        assert((-w) / p >= 0) by {
            if (-w) / p < 0 {
                lemma_mul_inequality((-w) / p, -1, p);
            }
        }
        lemma_mul_nonnegative((-w) / p, p);
    }
}

/// The arithmetic of `round`: where `z` is `x` moved by one half away from
/// zero (`x` taking the sign `neg`), `a` is within `e < |z|` of `z`, and `v`
/// is `a` moved by less than one toward zero, `v` is within one half and
/// `e` of `x`.
proof fn lemma_round_bound(x: int, z: int, a: int, v: int, e: int, neg: bool)
    requires
        neg ==> x <= 0 && z == x - pow2(1073),
        !neg ==> x >= 0 && z == x + pow2(1073),
        e == dist(a, z),
        e < magnitude(z),
        dist(v, a) < pow2(1074),
        a > 0 ==> 0 <= v <= a,
        a < 0 ==> a <= v <= 0,
    ensures
        2 * dist(v, x) <= pow2(1074) + 2 * e,
{
    lemma_pow2_adds(1, 1073);
    lemma2_to64();
    lemma_pow2_pos(1073);
}

/// The encoding zero has value zero.
proof fn lemma_zero_value()
    ensures
        enc_is_finite(0u64),
        scaled(0u64) == 0,
{
    assert(exp_field(0u64) == 0 && frac_field(0u64) == 0);
    lemma_units_bounds(0u64);
}

} // verus!
