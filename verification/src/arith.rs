//! Arithmetic on double-double numbers.
//!
//! The algorithms are those of M. Joldes et al., ACM Trans. Math. Softw.
//! 44, 1-27 (2018), built from binary64 operations (`ops`).  Each result is
//! specified by the same sequence of binary64 operations on the spec level;
//! the exactness of the error-free transformations is stated in `laws`.
use crate::ieee::{enc_is_finite, enc_lt, exp_field, frac_field, lt_enc, scaled, sign_bit, unit_shift, units};
use crate::ops::{
    add_enc, div_enc, fadd, fdiv, ffma, fma_enc, fmul, fneg, fsqrt, fsub, lemma_fneg, mul_enc, neg_enc,
    sqrt_enc, sub_enc,
};
use crate::Compensated;
use crate::Df64;
use vstd::arithmetic::power2::pow2;
use vstd::prelude::*;

verus! {

/// `b` is `a` with the sign bit flipped: the binary64 negation of `a`.
pub open spec fn is_negation(b: u64, a: u64) -> bool {
    &&& sign_bit(b) == !sign_bit(a)
    &&& exp_field(b) == exp_field(a)
    &&& frac_field(b) == frac_field(a)
}

/// Negation: both parts are negated, which is exact.
pub fn neg_q(x: Df64) -> (r: Df64)
    ensures
        parts(r) == (fneg(x.hi_part()), fneg(x.lo_part())),
        is_negation(r.hi_part(), x.hi_part()),
        is_negation(r.lo_part(), x.lo_part()),
{
    proof {
        lemma_fneg(x.hi_part());
        lemma_fneg(x.lo_part());
    }
    Compensated::new(neg_enc(x.hi()), neg_enc(x.lo()))
}

// ---------------------------------------------------------------------------
// double (op) double -> double-double

/// Fast2Sum: `s = a + b` and the correction `t = b - (s - a)`, exact where
/// `|a| >= |b|`.
pub open spec fn fast_two_sum(a: u64, b: u64) -> (u64, u64) {
    let s = fadd(a, b);
    let z = fsub(s, a);
    (s, fsub(b, z))
}

/// 2Sum: `s = a + b` and its rounding error, without an order on the
/// arguments.
pub open spec fn two_sum(a: u64, b: u64) -> (u64, u64) {
    let s = fadd(a, b);
    let aprime = fsub(s, b);
    let bprime = fsub(s, aprime);
    let delta_a = fsub(a, aprime);
    let delta_b = fsub(b, bprime);
    (s, fadd(delta_a, delta_b))
}

/// The two parts of a double-double number.
pub open spec fn parts(x: Df64) -> (u64, u64) {
    (x.hi_part(), x.lo_part())
}

/// Adds two binary64 numbers where `|a| >= |b|` (Fast2Sum, 3 flops); the
/// sum of the result's parts is then exactly `a + b`.
pub fn addfast_dd(a: u64, b: u64) -> (r: Df64)
    ensures
        parts(r) == fast_two_sum(a, b),
        enc_is_finite(a) && enc_is_finite(b) && units(b) <= units(a) && enc_is_finite(r.hi_part())
            ==> enc_is_finite(r.lo_part()) && scaled(r.hi_part()) + scaled(r.lo_part()) == scaled(a)
            + scaled(b),
{
    proof {
        if enc_is_finite(a) && enc_is_finite(b) && units(b) <= units(a) && enc_is_finite(fast_two_sum(a, b).0) {
            crate::laws::law_fast_two_sum_exact(a, b);
        }
    }
    let s = add_enc(a, b);
    let z = sub_enc(s, a);
    let t = sub_enc(b, z);
    Compensated::new(s, t)
}

/// Adds two binary64 numbers (2Sum, 6 flops); where the sum and `s - b`
/// are finite, the sum of the result's parts is exactly `a + b`.
pub fn add_dd(a: u64, b: u64) -> (r: Df64)
    ensures
        parts(r) == two_sum(a, b),
        enc_is_finite(a) && enc_is_finite(b) && enc_is_finite(r.hi_part()) && enc_is_finite(
            fsub(r.hi_part(), b),
        ) ==> enc_is_finite(r.lo_part()) && scaled(r.hi_part()) + scaled(r.lo_part()) == scaled(a)
            + scaled(b),
{
    proof {
        if enc_is_finite(a) && enc_is_finite(b) && enc_is_finite(two_sum(a, b).0) && enc_is_finite(
            fsub(two_sum(a, b).0, b),
        ) {
            crate::laws::law_two_sum_exact(a, b);
        }
    }
    let s = add_enc(a, b);
    let aprime = sub_enc(s, b);
    let bprime = sub_enc(s, aprime);
    let delta_a = sub_enc(a, aprime);
    let delta_b = sub_enc(b, bprime);
    let t = add_enc(delta_a, delta_b);
    Compensated::new(s, t)
}

// ---------------------------------------------------------------------------
// double-double (op) double -> double-double

/// `x + y` with the order `|x.hi| >= |y|` (7 flops).
pub open spec fn addfast_qd_spec(x: (u64, u64), y: u64) -> (u64, u64) {
    let s = fast_two_sum(x.0, y);
    let v = fadd(x.1, s.1);
    fast_two_sum(s.0, v)
}

/// `x + y` (10 flops).
pub open spec fn add_qd_spec(x: (u64, u64), y: u64) -> (u64, u64) {
    let s = two_sum(x.0, y);
    let v = fadd(x.1, s.1);
    fast_two_sum(s.0, v)
}

/// Adds a binary64 number to a double-double number, where
/// `|x.hi| >= |y|` (7 flops).
pub fn addfast_qd(x: Df64, y: u64) -> (r: Df64)
    ensures
        parts(r) == addfast_qd_spec(parts(x), y),
{
    let s = addfast_dd(x.hi(), y);
    let v = add_enc(x.lo(), s.lo());
    addfast_dd(s.hi(), v)
}

/// Adds a binary64 number to a double-double number (10 flops).
pub fn add_qd(x: Df64, y: u64) -> (r: Df64)
    ensures
        parts(r) == add_qd_spec(parts(x), y),
{
    let s = add_dd(x.hi(), y);
    let v = add_enc(x.lo(), s.lo());
    addfast_dd(s.hi(), v)
}

/// `x + y` for a binary64 `x`, where `|x| >= |y.hi|` (7 flops).
pub open spec fn addfast_dq_spec(x: u64, y: (u64, u64)) -> (u64, u64) {
    let s = fast_two_sum(x, y.0);
    fast_two_sum(s.0, fadd(y.1, s.1))
}

/// Adds a double-double number to a binary64 number, where
/// `|x| >= |y.hi|` (7 flops).
pub fn addfast_dq(x: u64, y: Df64) -> (r: Df64)
    ensures
        parts(r) == addfast_dq_spec(x, parts(y)),
        parts(r) == fast_two_sum(fast_two_sum(x, y.hi_part()).0, fadd(y.lo_part(), fast_two_sum(x, y.hi_part()).1)),
{
    let s = addfast_dd(x, y.hi());
    let v = add_enc(y.lo(), s.lo());
    addfast_dd(s.hi(), v)
}

/// Adds a double-double number to a binary64 number (10 flops).
pub fn add_dq(x: u64, y: Df64) -> (r: Df64)
    ensures
        parts(r) == add_qd_spec(parts(y), x),
{
    add_qd(y, x)
}

// ---------------------------------------------------------------------------
// double-double (op) double-double -> double-double

/// `x + y` with the order `|x.hi| >= |y.hi|` (17 flops).
pub open spec fn addfast_qq_spec(x: (u64, u64), y: (u64, u64)) -> (u64, u64) {
    let s = fast_two_sum(x.0, y.0);
    let t = two_sum(x.1, y.1);
    let c = fadd(s.1, t.0);
    let v = fast_two_sum(s.0, c);
    let w = fadd(t.1, v.1);
    fast_two_sum(v.0, w)
}

/// `x + y` (20 flops).
pub open spec fn add_qq_spec(x: (u64, u64), y: (u64, u64)) -> (u64, u64) {
    let s = two_sum(x.0, y.0);
    let t = two_sum(x.1, y.1);
    let c = fadd(s.1, t.0);
    let v = fast_two_sum(s.0, c);
    let w = fadd(t.1, v.1);
    fast_two_sum(v.0, w)
}

/// Adds two double-double numbers, where `|x.hi| >= |y.hi|` (17 flops).
pub fn addfast_qq(x: Df64, y: Df64) -> (r: Df64)
    ensures
        parts(r) == addfast_qq_spec(parts(x), parts(y)),
{
    let s = addfast_dd(x.hi(), y.hi());
    let t = add_dd(x.lo(), y.lo());
    let c = add_enc(s.lo(), t.hi());
    let v = addfast_dd(s.hi(), c);
    let w = add_enc(t.lo(), v.lo());
    addfast_dd(v.hi(), w)
}

/// Adds two double-double numbers (20 flops).
pub fn add_qq(x: Df64, y: Df64) -> (r: Df64)
    ensures
        parts(r) == add_qq_spec(parts(x), parts(y)),
{
    let s = add_dd(x.hi(), y.hi());
    let t = add_dd(x.lo(), y.lo());
    let c = add_enc(s.lo(), t.hi());
    let v = addfast_dd(s.hi(), c);
    let w = add_enc(t.lo(), v.lo());
    addfast_dd(v.hi(), w)
}

// ---------------------------------------------------------------------------
// Products and quotients

/// 2Prod: `p = a * b` and its rounding error `fma(a, b, -p)`.
pub open spec fn two_prod(a: u64, b: u64) -> (u64, u64) {
    let p = fmul(a, b);
    (p, ffma(a, b, fneg(p)))
}

/// The quotient `a / b` and a correction from the remainder
/// `fma(-b, q, a)`.
pub open spec fn div_dd_spec(a: u64, b: u64) -> (u64, u64) {
    let th = fdiv(a, b);
    let rl = ffma(fneg(b), th, a);
    (th, fdiv(rl, b))
}

/// Multiplies two binary64 numbers (2Prod, 2 flops); where no bit of the
/// exact product lies below `2^-1074`, the sum of the result's parts is
/// exactly `a * b`.
pub fn mul_dd(a: u64, b: u64) -> (r: Df64)
    ensures
        parts(r) == two_prod(a, b),
        enc_is_finite(a) && enc_is_finite(b) && unit_shift(a) + unit_shift(b) >= 1074 && enc_is_finite(
            r.hi_part(),
        ) ==> enc_is_finite(r.lo_part()) && (scaled(r.hi_part()) + scaled(r.lo_part())) * pow2(1074)
            == scaled(a) * scaled(b),
{
    proof {
        if enc_is_finite(a) && enc_is_finite(b) && unit_shift(a) + unit_shift(b) >= 1074 && enc_is_finite(
            two_prod(a, b).0,
        ) {
            crate::laws::law_two_prod_exact(a, b);
        }
    }
    let p = mul_enc(a, b);
    let rho = fma_enc(a, b, neg_enc(p));
    Compensated::new(p, rho)
}

/// Divides two binary64 numbers (3 flops, two of them divisions).
pub fn div_dd(a: u64, b: u64) -> (r: Df64)
    ensures
        parts(r) == div_dd_spec(a, b),
{
    let th = div_enc(a, b);
    let rl = fma_enc(neg_enc(b), th, a);
    let tl = div_enc(rl, b);
    Compensated::new(th, tl)
}

/// The encoding of 1.
pub open spec fn one() -> u64 {
    0x3ff0_0000_0000_0000u64
}

/// The reciprocal `1 / x` of a binary64 number.
pub fn reciprocal_d(x: u64) -> (r: Df64)
    ensures
        parts(r) == div_dd_spec(one(), x),
{
    div_dd(0x3ff0_0000_0000_0000u64, x)
}

/// `x * y` (Algorithm 9, 6 flops).
pub open spec fn mul_qd_spec(x: (u64, u64), y: u64) -> (u64, u64) {
    let c = two_prod(x.0, y);
    let cl3 = ffma(x.1, y, c.1);
    fast_two_sum(c.0, cl3)
}

/// `x / y` (7 flops).
pub open spec fn div_qd_spec(x: (u64, u64), y: u64) -> (u64, u64) {
    let th = fdiv(x.0, y);
    let rl = fadd(ffma(fneg(y), th, x.0), x.1);
    let tl = fdiv(rl, y);
    fast_two_sum(th, tl)
}

/// Multiplies a double-double number by a binary64 number.
pub fn mul_qd(x: Df64, y: u64) -> (r: Df64)
    ensures
        parts(r) == mul_qd_spec(parts(x), y),
{
    let c = mul_dd(x.hi(), y);
    let cl3 = fma_enc(x.lo(), y, c.lo());
    addfast_dd(c.hi(), cl3)
}

/// Divides a double-double number by a binary64 number.
///
/// With `th = x.hi / y`, the quotient is `th + (x.hi - th * y) / y +
/// x.lo / y`; the remainder `x.hi - th * y` is formed by one fused
/// multiply-add.
pub fn div_qd(x: Df64, y: u64) -> (r: Df64)
    ensures
        parts(r) == div_qd_spec(parts(x), y),
{
    let th = div_enc(x.hi(), y);
    let rl = add_enc(fma_enc(neg_enc(y), th, x.hi()), x.lo());
    let tl = div_enc(rl, y);
    addfast_dd(th, tl)
}

/// Multiplies a binary64 number by a double-double number.
pub fn mul_dq(x: u64, y: Df64) -> (r: Df64)
    ensures
        parts(r) == mul_qd_spec(parts(y), x),
{
    mul_qd(y, x)
}

/// Adds a power of two `p`, whose significand is a single bit.
pub fn add_pow2(a: Df64, p: u64) -> (r: Df64)
    ensures
        parts(r) == addfast_qd_spec(parts(a), p),
{
    addfast_qd(a, p)
}

/// Multiplies by a power of two `p`, part by part.
pub fn mul_pow2(a: Df64, p: u64) -> (r: Df64)
    ensures
        parts(r) == (fmul(a.hi_part(), p), fmul(a.lo_part(), p)),
{
    Compensated::new(mul_enc(a.hi(), p), mul_enc(a.lo(), p))
}

/// Divides by a power of two `p`: multiplies by its reciprocal.
pub fn div_pow2(a: Df64, p: u64) -> (r: Df64)
    ensures
        parts(r) == (fmul(a.hi_part(), fdiv(one(), p)), fmul(a.lo_part(), fdiv(one(), p))),
{
    mul_pow2(a, div_enc(0x3ff0_0000_0000_0000u64, p))
}

/// `x * y` (Algorithm 12, 9 flops).
pub open spec fn mul_qq_spec(x: (u64, u64), y: (u64, u64)) -> (u64, u64) {
    let c = two_prod(x.0, y.0);
    let tl0 = fmul(x.1, y.1);
    let tl1 = ffma(x.0, y.1, tl0);
    let cl2 = ffma(x.1, y.0, tl1);
    let cl3 = fadd(c.1, cl2);
    fast_two_sum(c.0, cl3)
}

/// `1 / y` (part of Algorithm 18).
pub open spec fn reciprocal_q_spec(y: (u64, u64)) -> (u64, u64) {
    let th = fdiv(one(), y.0);
    let rh = ffma(fneg(y.0), th, one());
    let rl = fmul(fneg(y.1), th);
    let e = fast_two_sum(rh, rl);
    let delta = mul_qd_spec(e, th);
    let s = fast_two_sum(th, delta.0);
    fast_two_sum(s.0, fadd(delta.1, s.1))
}

/// `x * x`.
pub open spec fn square_q_spec(x: (u64, u64)) -> (u64, u64) {
    let y = two_prod(x.0, x.0);
    let y_lo = ffma(fadd(x.1, x.1), x.0, y.1);
    fast_two_sum(y.0, y_lo)
}

/// Multiplies two double-double numbers (9 flops).
pub fn mul_qq(x: Df64, y: Df64) -> (r: Df64)
    ensures
        parts(r) == mul_qq_spec(parts(x), parts(y)),
{
    let c = mul_dd(x.hi(), y.hi());
    let tl0 = mul_enc(x.lo(), y.lo());
    let tl1 = fma_enc(x.hi(), y.lo(), tl0);
    let cl2 = fma_enc(x.lo(), y.hi(), tl1);
    let cl3 = add_enc(c.lo(), cl2);
    addfast_dd(c.hi(), cl3)
}

/// The reciprocal of a double-double number (19 flops).
///
/// With `th = 1 / y.hi`, `1 / y = th * (1 + rh / th) * (1 + y.lo / y.hi +
/// ...)`, where `rh = 1 - y.hi * th` is formed exactly by a fused
/// multiply-add.
pub fn reciprocal_q(y: Df64) -> (r: Df64)
    ensures
        parts(r) == reciprocal_q_spec(parts(y)),
{
    let th = div_enc(0x3ff0_0000_0000_0000u64, y.hi());
    let rh = fma_enc(neg_enc(y.hi()), th, 0x3ff0_0000_0000_0000u64);
    let rl = mul_enc(neg_enc(y.lo()), th);
    let e = addfast_dd(rh, rl);
    let delta = mul_qd(e, th);
    addfast_dq(th, delta)
}

/// Divides two double-double numbers: `x` times the reciprocal of `y`.
pub fn div_qq(x: Df64, y: Df64) -> (r: Df64)
    ensures
        parts(r) == mul_qq_spec(reciprocal_q_spec(parts(y)), parts(x)),
{
    mul_qq(reciprocal_q(y), x)
}

/// Divides a binary64 number by a double-double number.
pub fn div_dq(x: u64, y: Df64) -> (r: Df64)
    ensures
        parts(r) == mul_qd_spec(reciprocal_q_spec(parts(y)), x),
{
    mul_qd(reciprocal_q(y), x)
}

/// Squares a double-double number (7 flops).
pub fn square_q(x: Df64) -> (r: Df64)
    ensures
        parts(r) == square_q_spec(parts(x)),
{
    let y = mul_dd(x.hi(), x.hi());
    let y_lo = fma_enc(add_enc(x.lo(), x.lo()), x.hi(), y.lo());
    addfast_dd(y.hi(), y_lo)
}

// ---------------------------------------------------------------------------
// Square roots

/// `a` is finite and above the smallest positive normal number.
pub open spec fn is_positive_normal(a: u64) -> bool {
    enc_lt(0x0010_0000_0000_0000u64, a) && enc_is_finite(a)
}

fn positive_normal(a: u64) -> (r: bool)
    ensures
        r == is_positive_normal(a),
{
    lt_enc(0x0010_0000_0000_0000u64, a) && a < 0x7ff0_0000_0000_0000u64
}

/// The square root of a binary64 number and a correction (Karp, Table II,
/// 4 flops); where `a` is not a positive normal number, the binary64 root
/// with a zero compensate.
pub open spec fn sqrt_d_spec(a: u64) -> (u64, u64) {
    let y0 = fsqrt(a);
    if is_positive_normal(a) {
        let delta_y = fdiv(ffma(fneg(y0), y0, a), y0);
        (y0, fmul(0x3fe0_0000_0000_0000u64, delta_y))
    } else {
        (y0, 0)
    }
}

/// The square root of a double-double number (Karp, Table II, 8 flops):
/// one Newton step from the binary64 root of the leading part; where the
/// leading part is not a positive normal number, the binary64 root, which
/// handles the special cases.
pub open spec fn sqrt_q_spec(a: (u64, u64)) -> (u64, u64) {
    let y0 = fsqrt(a.0);
    if !is_positive_normal(a.0) {
        (y0, 0)
    } else {
        let delta_y = fdiv(fadd(ffma(fneg(y0), y0, a.0), a.1), fadd(y0, y0));
        fast_two_sum(y0, delta_y)
    }
}

/// The square root of a binary64 number, with a correction.
pub fn sqrt_d(a: u64) -> (r: Df64)
    ensures
        parts(r) == sqrt_d_spec(a),
{
    let y0 = sqrt_enc(a);
    if positive_normal(a) {
        let delta_y = div_enc(fma_enc(neg_enc(y0), y0, a), y0);
        Compensated::new(y0, mul_enc(0x3fe0_0000_0000_0000u64, delta_y))
    } else {
        Compensated::new(y0, 0)
    }
}

/// The square root of a double-double number.
pub fn sqrt_q(a: Df64) -> (r: Df64)
    ensures
        parts(r) == sqrt_q_spec(parts(a)),
{
    let y0 = sqrt_enc(a.hi());
    if !positive_normal(a.hi()) {
        return Compensated::new(y0, 0);
    }
    let delta_y = div_enc(add_enc(fma_enc(neg_enc(y0), y0, a.hi()), a.lo()), add_enc(y0, y0));
    addfast_dd(y0, delta_y)
}

// ---------------------------------------------------------------------------
// Differences: sums with the negated subtrahend

/// The negation of the parts of a double-double number.
pub open spec fn neg_parts(y: (u64, u64)) -> (u64, u64) {
    (fneg(y.0), fneg(y.1))
}

/// `a - b` exactly, where `|a| >= |b|`.
pub fn subfast_dd(a: u64, b: u64) -> (r: Df64)
    ensures
        parts(r) == fast_two_sum(a, fneg(b)),
{
    addfast_dd(a, neg_enc(b))
}

/// `a - b` exactly.
pub fn sub_dd(a: u64, b: u64) -> (r: Df64)
    ensures
        parts(r) == two_sum(a, fneg(b)),
{
    add_dd(a, neg_enc(b))
}

/// `x - y`, where `|x.hi| >= |y|`.
pub fn subfast_qd(x: Df64, y: u64) -> (r: Df64)
    ensures
        parts(r) == addfast_qd_spec(parts(x), fneg(y)),
{
    addfast_qd(x, neg_enc(y))
}

/// `x - y`.
pub fn sub_qd(x: Df64, y: u64) -> (r: Df64)
    ensures
        parts(r) == add_qd_spec(parts(x), fneg(y)),
{
    add_qd(x, neg_enc(y))
}

/// `x - y`, where `|x| >= |y.hi|`.
pub fn subfast_dq(x: u64, y: Df64) -> (r: Df64)
    ensures
        parts(r) == fast_two_sum(
            fast_two_sum(x, fneg(y.hi_part())).0,
            fadd(fneg(y.lo_part()), fast_two_sum(x, fneg(y.hi_part())).1),
        ),
{
    addfast_dq(x, neg_q(y))
}

/// `x - y`.
pub fn sub_dq(x: u64, y: Df64) -> (r: Df64)
    ensures
        parts(r) == add_qd_spec(neg_parts(parts(y)), x),
{
    add_dq(x, neg_q(y))
}

/// `x - y`, where `|x.hi| >= |y.hi|`.
pub fn subfast_qq(x: Df64, y: Df64) -> (r: Df64)
    ensures
        parts(r) == addfast_qq_spec(parts(x), neg_parts(parts(y))),
{
    addfast_qq(x, neg_q(y))
}

/// `x - y`.
pub fn sub_qq(x: Df64, y: Df64) -> (r: Df64)
    ensures
        parts(r) == add_qq_spec(parts(x), neg_parts(parts(y))),
{
    add_qq(x, neg_q(y))
}

} // verus!
