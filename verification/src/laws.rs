//! Properties that relate the functions of this library.
use crate::arith::{fast_two_sum, is_negation, two_prod, two_sum};
use crate::ops::{
    fadd, ffma, fmul, fneg, fsub, lemma_fneg_value, lemma_product, lemma_round_exact,
    lemma_round_signed_shift, lemma_round_signed_value, magnitude, round_signed, with_sign,
};
use crate::rounding::{
    dist, lemma_enc_of_units, lemma_fast2sum_mag, lemma_product_error, lemma_representable_small,
    lemma_rnd_exact, lemma_rnd_zero, overflows, representable, rnd, grid,
};
use crate::checks::{eps_scaled_category, enc_category, FpCategory};
use crate::funcs::le_spec;
use crate::convert::{df_value, signed, trunc_int, trunc_value, value_in_range};
use crate::ieee::{
    enc_is_finite, enc_is_infinite, enc_is_nan, enc_is_normal, enc_is_subnormal, enc_is_zero,
    exp_field, frac_field, has_int_value, lemma_fields_determine, lemma_units_bounds, lemma_rne_shr_bounds, rne_shr, bitlen, lemma_bitlen_bounds,
    round_int, scaled, sign_bit, significand, two52, unit_shift, units,
};
use crate::arith::{
    square_q_spec, add_qd_spec, addfast_dq_spec, addfast_qq_spec, mul_qq_spec, neg_parts, parts, reciprocal_q_spec,
};
use crate::exp::{expm1_spec, expm1_split_spec, HALF, INFINITY, ONE, TWO};
use crate::funcs::{abs_parts, copysign_parts};
use crate::hyperbolic::{
    cosh_accepts, cosh_spec, exp_half, exp_minus_half, sinh_spec, tanh_accepts, tanh_spec, COSH_MAX,
};
use crate::ieee::enc_le;
use crate::circular::cos_kernel_spec;
use crate::rounding::{enc_parts, lemma_enc_parts, lemma_round_enc_value, round_enc};
use crate::ops::lemma_fneg;
use crate::Df64;
use vstd::arithmetic::div_mod::*;
use vstd::arithmetic::mul::*;
use vstd::arithmetic::power2::*;
use vstd::prelude::*;

verus! {

/// The normal test of `checks::is_normal`.
pub open spec fn normal_class(b: u64) -> bool {
    enc_is_normal(b) && eps_scaled_category(b) == FpCategory::Normal
}

/// The subnormal test of `checks::is_subnormal`.
pub open spec fn subnormal_class(b: u64) -> bool {
    enc_is_subnormal(b) || eps_scaled_category(b) == FpCategory::Subnormal
}

/// Every double-double number is in exactly one class: NaN, infinite,
/// zero, subnormal or normal (the tests `is_nan`, `is_infinite`,
/// `is_zero`, `is_subnormal` and `is_normal`); and it is finite exactly
/// when it is neither NaN nor infinite (`is_finite`).
pub proof fn law_classes_partition(x: Df64)
    ensures
        ({
            let b = x.hi_part();
            let n: int = (if enc_is_nan(b) { 1int } else { 0 }) + (if enc_is_infinite(b) {
                1int
            } else {
                0
            }) + (if enc_is_zero(b) { 1int } else { 0 }) + (if subnormal_class(b) {
                1int
            } else {
                0
            }) + (if normal_class(b) { 1int } else { 0 });
            n == 1
        }),
        enc_is_finite(x.hi_part()) == !(enc_is_nan(x.hi_part()) || enc_is_infinite(x.hi_part())),
{
    let b = x.hi_part();
    if 0 < exp_field(b) <= 52 {
        lemma_pow2_pos(unit_shift(b));
        lemma_mul_inequality(two52() as int, significand(b) as int, pow2(unit_shift(b)) as int);
        lemma_mul_increases(pow2(unit_shift(b)) as int, two52() as int);
        lemma_mul_is_commutative(pow2(unit_shift(b)) as int, two52() as int);
        assert(units(b) >= two52());
        lemma2_to64();
        lemma2_to64_rest();
        lemma_div_is_ordered(two52() as int, units(b) as int, pow2(52) as int);
        lemma_div_basics(pow2(52) as int);
        lemma_rne_shr_bounds(units(b), 52);
        assert(rne_shr(units(b), 52) >= 1);
    }
    if exp_field(b) == 0 && frac_field(b) == 0 {
        assert(units(b) == 0) by {
            lemma_mul_basics(pow2(0) as int);
        }
        lemma_pow2_pos(52);
        lemma_div_of0(pow2(52) as int);
        lemma_rne_shr_bounds(0, 52);
        lemma_small_mod(0, pow2(52));
    }
}

/// The class returned by `classify` is NaN, infinite or zero exactly when
/// `is_nan`, `is_infinite` or `is_zero` holds.
pub proof fn law_classify_agrees(x: Df64)
    ensures
        (enc_category(x.hi_part()) == FpCategory::Nan) == enc_is_nan(x.hi_part()),
        (enc_category(x.hi_part()) == FpCategory::Infinite) == enc_is_infinite(x.hi_part()),
        (enc_category(x.hi_part()) == FpCategory::Zero) == enc_is_zero(x.hi_part()),
        (enc_category(x.hi_part()) == FpCategory::Normal) == enc_is_normal(x.hi_part()),
        (enc_category(x.hi_part()) == FpCategory::Subnormal) == enc_is_subnormal(x.hi_part()),
{
}

/// Negating twice gives back the number (`neg_q(neg_q(x)) == x`), and
/// negation flips the sign reported by `is_sign_negative`.
pub proof fn law_neg_involution(a: u64, b: u64, c: u64)
    requires
        is_negation(b, a),
        is_negation(c, b),
    ensures
        c == a,
        sign_bit(b) == !sign_bit(a),
{
    lemma_fields_determine(c, a);
}

/// A number with an integer value truncates to that value.
pub proof fn law_trunc_of_int(b: u64, v: int)
    requires
        has_int_value(b, v),
    ensures
        trunc_int(b) == v,
{
    let p = pow2(1074);
    lemma_pow2_pos(1074);
    if sign_bit(b) {
        assert(units(b) == -v * p) by {
            lemma_mul_unary_negation(v, p as int);
        }
        lemma_div_multiples_vanish(-v, p as int);
        lemma_mul_is_commutative(-v, p as int);
        lemma_div_by_multiple(-v, p as int);
        lemma_mul_nonnegative(1, 1);
        if v > 0 {
            lemma_mul_strictly_positive(v, p as int);
        }
    } else {
        if v < 0 {
            lemma_mul_strictly_positive(-v, p as int);
            lemma_mul_unary_negation(v, p as int);
        }
        lemma_div_by_multiple(v, p as int);
    }
}

/// The two parts made by the integer conversions `from_*` add up to the
/// integer exactly.
pub proof fn law_from_int_exact(x: Df64, n: int)
    requires
        has_int_value(x.hi_part(), round_int(n)),
        has_int_value(x.lo_part(), n - round_int(n)),
    ensures
        scaled(x.hi_part()) + scaled(x.lo_part()) == n * pow2(1074),
{
    lemma_mul_is_distributive_add_other_way(pow2(1074) as int, round_int(n), n - round_int(n));
}

/// Converting an integer of at most 53 bits to a double-double number and
/// back gives the integer: `try_to_*(from_*(n)) == Some(n)`.
pub proof fn law_int_round_trip_small(x: Df64, n: int, low: int, high: int)
    requires
        has_int_value(x.hi_part(), n),
        x.lo_part() == 0,
        low <= n < high,
    ensures
        value_in_range(x, low, high),
        trunc_value(x) == n,
{
    lemma_zero_is_int(x.lo_part());
    lemma_int_value_converts(x, n, low, high);
}

/// Converting an integer to a double-double number and back gives the
/// integer, for every integer in the range of the type:
/// `try_to_i64(from_i64(n)) == Some(n)` and `try_to_u64(from_u64(n)) ==
/// Some(n)` for all `n`.
pub proof fn law_int_round_trip(x: Df64, n: int, low: int, high: int)
    requires
        has_int_value(x.hi_part(), round_int(n)),
        has_int_value(x.lo_part(), n - round_int(n)),
        low <= n < high,
    ensures
        value_in_range(x, low, high),
        trunc_value(x) == n,
{
    law_from_int_exact(x, n);
    lemma_int_value_converts(x, n, low, high);
}

proof fn lemma_zero_is_int(b: u64)
    requires
        b == 0,
    ensures
        has_int_value(b, 0),
{
    assert(0u64 / 0x10_0000_0000_0000u64 == 0 && 0u64 % 0x10_0000_0000_0000u64 == 0)
        by (bit_vector);
    assert(significand(0) == 0);
    lemma_mul_basics(pow2(0) as int);
    lemma_mul_basics(pow2(1074) as int);
}

/// A double-double number whose finite parts add up to the integer `n`
/// in `low..high` converts to `n`.
proof fn lemma_int_value_converts(x: Df64, n: int, low: int, high: int)
    requires
        enc_is_finite(x.hi_part()),
        enc_is_finite(x.lo_part()),
        df_value(x) == n * pow2(1074),
        low <= n < high,
    ensures
        value_in_range(x, low, high),
        trunc_value(x) == n,
{
    let p = pow2(1074) as int;
    lemma_pow2_pos(1074);
    lemma_mul_inequality(low, n, p);
    lemma_mul_strict_inequality(n, high, p);
    let m = if n < 0 { -n } else { n };
    assert(magnitude(df_value(x)) == m * p) by {
        if n < 0 {
            lemma_mul_unary_negation(-n, p);
        }
    }
    lemma_div_multiples_vanish(m, p);
    lemma_mul_is_commutative(m, p);
    if n < 0 {
        lemma_mul_strictly_positive(-n, p);
        lemma_mul_unary_negation(-n, p);
    } else if n > 0 {
        lemma_mul_strictly_positive(n, p);
    } else {
        lemma_mul_basics(p);
    }
}

/// Neither part of `x` is NaN.
pub open spec fn no_nan(x: Df64) -> bool {
    !enc_is_nan(x.hi_part()) && !enc_is_nan(x.lo_part())
}

/// Without NaN parts the order `le_spec` (the `<=` of `min`, `max` and
/// `clamp`) is total, reflexive and transitive.
pub proof fn law_order_total(a: Df64, b: Df64, c: Df64)
    requires
        no_nan(a),
        no_nan(b),
        no_nan(c),
    ensures
        le_spec(a, a),
        le_spec(a, b) || le_spec(b, a),
        le_spec(a, b) && le_spec(b, c) ==> le_spec(a, c),
{
}

/// Without NaN parts, `min(a, b)` is at most both and is one of them, and
/// `max(a, b)` is at least both and is one of them.
pub proof fn law_min_max(a: Df64, b: Df64, lo: Df64, hi: Df64)
    requires
        no_nan(a),
        no_nan(b),
        lo == (if le_spec(a, b) || enc_is_nan(b.hi_part()) {
            a
        } else {
            b
        }),
        hi == (if le_spec(a, b) || enc_is_nan(a.hi_part()) {
            b
        } else {
            a
        }),
    ensures
        le_spec(lo, a) && le_spec(lo, b),
        le_spec(a, hi) && le_spec(b, hi),
        lo == a || lo == b,
        hi == a || hi == b,
{
    law_order_total(a, b, a);
}

/// `abs` clears the sign bit of the leading part.
pub proof fn law_abs_sign(x: Df64, r: Df64)
    requires
        sign_bit(x.hi_part()) ==> is_negation(r.hi_part(), x.hi_part()),
        !sign_bit(x.hi_part()) ==> r == x,
    ensures
        !sign_bit(r.hi_part()),
{
}

/// `copysign(mag, sgn)` has the sign of `sgn`.
pub proof fn law_copysign_sign(mag: Df64, sgn: Df64, r: Df64)
    requires
        sign_bit(mag.hi_part()) != sign_bit(sgn.hi_part()) ==> is_negation(
            r.hi_part(),
            mag.hi_part(),
        ),
        sign_bit(mag.hi_part()) == sign_bit(sgn.hi_part()) ==> r == mag,
    ensures
        sign_bit(r.hi_part()) == sign_bit(sgn.hi_part()),
{
}

/// A finite value has one encoding for each sign: two finite numbers with
/// the same sign and the same magnitude are the same encoding.  So the
/// contracts that give the sign and the value of a result give its
/// encoding.
pub proof fn law_encoding_unique(a: u64, b: u64)
    requires
        enc_is_finite(a),
        enc_is_finite(b),
        sign_bit(a) == sign_bit(b),
        units(a) == units(b),
    ensures
        a == b,
{
    lemma_units_bounds(a);
    lemma_units_bounds(b);
    let ea = exp_field(a);
    let eb = exp_field(b);
    if ea != eb {
        // The binades do not overlap.
        if ea < eb {
            lemma_exp_order(a, b);
        } else {
            lemma_exp_order(b, a);
        }
    }
    assert(ea == eb);
    lemma_pow2_pos(unit_shift(a));
    if significand(a) != significand(b) {
        if significand(a) < significand(b) {
            lemma_mul_strict_inequality(significand(a) as int, significand(b) as int, pow2(unit_shift(a)) as int);
        } else {
            lemma_mul_strict_inequality(significand(b) as int, significand(a) as int, pow2(unit_shift(a)) as int);
        }
    }
    lemma_fields_determine(a, b);
}

proof fn lemma_exp_order(a: u64, b: u64)
    requires
        enc_is_finite(a),
        enc_is_finite(b),
        exp_field(a) < exp_field(b),
    ensures
        units(a) < units(b),
{
    lemma_units_bounds(a);
    lemma_units_bounds(b);
    let ea = exp_field(a);
    let eb = exp_field(b);
    if ea < (eb - 1) as nat {
        lemma_pow2_strictly_increases(ea, (eb - 1) as nat);
    }
    lemma_mul_inequality(pow2(ea) as int, pow2((eb - 1) as nat) as int, two52() as int);
    lemma_mul_is_commutative(pow2(ea) as int, two52() as int);
    lemma_mul_is_commutative(pow2((eb - 1) as nat) as int, two52() as int);
}

// ---------------------------------------------------------------------------
// Error-free transformations

/// A smaller magnitude has no larger unit shift.
proof fn lemma_shift_order(a: u64, b: u64)
    requires
        enc_is_finite(a),
        enc_is_finite(b),
        units(b) <= units(a),
    ensures
        unit_shift(b) <= unit_shift(a),
{
    if exp_field(a) < exp_field(b) {
        lemma_exp_order(a, b);
    }
}

/// The magnitude of `a + b` where `|b| <= |a|`.
spec fn mag_sum(a: u64, b: u64) -> nat {
    if sign_bit(a) == sign_bit(b) {
        units(a) + units(b)
    } else {
        (units(a) - units(b)) as nat
    }
}

/// The sum in Fast2Sum: its value is the rounded magnitude of `a + b`
/// with the sign of `a`.
proof fn lemma_f2s_sum(a: u64, b: u64)
    requires
        enc_is_finite(a),
        enc_is_finite(b),
        units(b) <= units(a),
        enc_is_finite(fadd(a, b)),
    ensures
        !overflows(rnd(mag_sum(a, b), 0)),
        scaled(fadd(a, b)) == signed(sign_bit(a), rnd(mag_sum(a, b), 0) as int),
        scaled(a) + scaled(b) == signed(sign_bit(a), mag_sum(a, b) as int),
{
    let v = scaled(a) + scaled(b);
    let m = mag_sum(a, b);
    assert(magnitude(v) == m);
    lemma_round_signed_value(v, sign_bit(a) && sign_bit(b));
    if m == 0 {
        lemma_rnd_zero(0);
    }
}

/// Fast2Sum is exact: where `|b| <= |a|` and the sum `s` is finite, the
/// correction `t` is finite and `s + t == a + b` exactly.
#[verifier::rlimit(50)]
pub proof fn law_fast_two_sum_exact(a: u64, b: u64)
    requires
        enc_is_finite(a),
        enc_is_finite(b),
        units(b) <= units(a),
        enc_is_finite(fast_two_sum(a, b).0),
    ensures
        enc_is_finite(fast_two_sum(a, b).1),
        scaled(fast_two_sum(a, b).0) + scaled(fast_two_sum(a, b).1) == scaled(a) + scaled(b),
{
    let s = fadd(a, b);
    let z = fsub(s, a);
    let t = fsub(b, z);
    let m = mag_sum(a, b);
    let r = rnd(m, 0);
    let neg = sign_bit(a);
    lemma_f2s_sum(a, b);
    lemma_shift_order(a, b);
    lemma_units_bounds(a);
    lemma2_to64();
    lemma2_to64_rest();
    lemma_fast2sum_mag(
        units(a),
        significand(a),
        unit_shift(a),
        units(b),
        significand(b),
        unit_shift(b),
        sign_bit(a) == sign_bit(b),
    );
    // z = s - a, exactly
    lemma_fneg_value(a);
    let zeta = signed(neg, r as int) - scaled(a);
    assert(magnitude(zeta) == (if sign_bit(a) == sign_bit(b) {
        r - units(a)
    } else {
        units(a) - r
    }));
    lemma_round_exact(zeta, sign_bit(s) && sign_bit(fneg(a)));
    assert(scaled(z) == zeta);
    // t = b - z, exactly
    lemma_fneg_value(z);
    let tau = scaled(b) - zeta;
    assert(tau == signed(neg, m - r));
    assert(magnitude(tau) == dist(m as int, r as int));
    lemma_enc_of_units(b);
    lemma_round_exact(tau, sign_bit(b) && sign_bit(fneg(z)));
    assert(scaled(t) == tau);
}
/// Fast2Sum returns a normalized pair: where it is exact (see
/// `law_fast_two_sum_exact`), the correction is at most `2^-53` of the
/// sum, `2^53 |t| <= |s|`.
#[verifier::rlimit(40)]
#[verifier::spinoff_prover]
pub proof fn law_fast_two_sum_tail_small(a: u64, b: u64)
    requires
        enc_is_finite(a),
        enc_is_finite(b),
        units(b) <= units(a),
        enc_is_finite(fast_two_sum(a, b).0),
    ensures
        enc_is_finite(fast_two_sum(a, b).1),
        pow2(53) * units(fast_two_sum(a, b).1) <= units(fast_two_sum(a, b).0),
{
    law_fast_two_sum_exact(a, b);
    lemma_f2s_sum(a, b);
    let st = fast_two_sum(a, b);
    let m = mag_sum(a, b);
    let r = rnd(m, 0);
    assert(units(st.0) == r);
    assert(units(st.1) == dist(r as int, m as int));
    crate::rounding::lemma_rnd_error(m);
    let g = grid(m, 0);
    if g > 0 {
        lemma_bitlen_bounds(m);
        let l = bitlen(m);
        assert(l == 53 + g);
        crate::rounding::lemma_div_pow2_bounds_pub(m, l, g);
        lemma_rne_shr_bounds(m, g);
        lemma2_to64();
        lemma2_to64_rest();
        assert(pow2((l - 1 - g) as nat) == pow2(52));
        let q = rne_shr(m, g);
        assert(q >= pow2(52));
        assert(r == q * pow2(g));
        lemma_mul_inequality(pow2(52) as int, q as int, pow2(g) as int);
        lemma_pow2_adds(52, g);
        lemma_pow2_adds(53, (g - 1) as nat);
        lemma_mul_inequality(dist(r as int, m as int), pow2((g - 1) as nat) as int, pow2(53) as int);
        lemma_mul_is_commutative(dist(r as int, m as int), pow2(53) as int);
        lemma_mul_is_commutative(pow2((g - 1) as nat) as int, pow2(53) as int);
        assert(53 + (g - 1) == 52 + g);
        assert(pow2(53) * pow2((g - 1) as nat) == pow2(52) * pow2(g));
        assert(pow2(52) * pow2(g) <= r);
        assert(pow2(53) * dist(r as int, m as int) <= r);
    } else {
        assert(r == m);
        assert(units(st.1) == 0);
    }
}

/// 2Prod is exact: where the product `p` is finite and no bit of the exact
/// product lies below 2^-1074 (the unit shifts of the operands add up to
/// 1074 or more), the error term `e` is finite and `p + e == a * b`
/// exactly.
#[verifier::rlimit(60)]
pub proof fn law_two_prod_exact(a: u64, b: u64)
    requires
        enc_is_finite(a),
        enc_is_finite(b),
        unit_shift(a) + unit_shift(b) >= 1074,
        enc_is_finite(two_prod(a, b).0),
    ensures
        enc_is_finite(two_prod(a, b).1),
        (scaled(two_prod(a, b).0) + scaled(two_prod(a, b).1)) * pow2(1074) == scaled(a) * scaled(
            b,
        ),
{
    let p = fmul(a, b);
    let e = ffma(a, b, fneg(p));
    let neg = sign_bit(a) != sign_bit(b);
    let k = unit_shift(a) + unit_shift(b);
    let e0 = (k - 1074) as nat;
    let pr = significand(a) * significand(b);
    lemma2_to64();
    lemma2_to64_rest();
    lemma_units_bounds(a);
    lemma_units_bounds(b);
    assert(pr < pow2(106)) by {
        lemma_pow2_adds(53, 53);
        assert(significand(a) * significand(b) < pow2(53) * pow2(53)) by (nonlinear_arith)
            requires
                significand(a) < pow2(53),
                significand(b) < pow2(53),
        ;
    }
    lemma_product(a, b);
    let m = pr * pow2(e0);
    lemma_pow2_adds(e0, 1074);
    lemma_mul_is_associative(pr as int, pow2(e0) as int, pow2(1074) as int);
    assert(scaled(a) * scaled(b) == signed(neg, m as int) * pow2(1074)) by (nonlinear_arith)
        requires
            scaled(a) * scaled(b) == (if neg {
                -(pr * pow2(k))
            } else {
                (pr * pow2(k)) as int
            }),
            pr * pow2(k) == m * pow2(1074),
            signed(neg, m as int) == (if neg {
                -m
            } else {
                m as int
            }),
    ;
    // the product
    lemma_round_signed_shift(signed(neg, m as int), neg);
    lemma_round_signed_value(signed(neg, m as int), neg);
    let r = rnd(m, 0);
    assert(magnitude(signed(neg, m as int)) == m);
    if m == 0 {
        lemma_rnd_zero(0);
    }
    assert(!overflows(r));
    assert(scaled(p) == signed(neg, r as int));
    // the error term
    lemma_fneg_value(p);
    lemma_product_error(pr, e0);
    let w = signed(neg, m as int) - signed(neg, r as int);
    assert(magnitude(w) == dist(m as int, r as int));
    assert(scaled(a) * scaled(b) + scaled(fneg(p)) * pow2(1074) == w * pow2(1074)) by (nonlinear_arith)
        requires
            scaled(a) * scaled(b) == signed(neg, m as int) * pow2(1074),
            scaled(fneg(p)) == -signed(neg, r as int),
            w == signed(neg, m as int) - signed(neg, r as int),
    ;
    lemma_round_signed_shift(w, neg && sign_bit(fneg(p)));
    lemma_pow2_pos(2098);
    lemma_round_exact(w, neg && sign_bit(fneg(p)));
    assert(scaled(e) == w);
}

/// Fast2Sum on values: for `|y| <= |x|`, with magnitudes given by their
/// significands and unit shifts, the rounded sum `sigma` of `x + y` lies at
/// a binary64 distance from `x`, and its rounding error is a binary64
/// magnitude, a multiple of the unit of `y` and no larger than `|y|`; where
/// the rounded sum is below `|y|`, the sum is exact.
#[verifier::rlimit(60)]
proof fn lemma_sum_values(x: int, sx: nat, kx: nat, y: int, sy: nat, ky: nat)
    requires
        magnitude(x) == sx * pow2(kx),
        magnitude(y) == sy * pow2(ky),
        sx < pow2(53),
        sy < pow2(53),
        ky <= kx,
        kx <= 2045,
        magnitude(y) <= magnitude(x),
        !overflows(rnd(magnitude(x + y), 0)),
    ensures
        ({
            let sigma = with_sign(x + y, rnd(magnitude(x + y), 0));
            &&& representable(magnitude(sigma - x))
            &&& !overflows(magnitude(sigma - x))
            &&& representable(magnitude(x + y - sigma))
            &&& magnitude(x + y - sigma) <= magnitude(y)
            &&& magnitude(x + y - sigma) % pow2(ky) == 0
            &&& rnd(magnitude(x + y), 0) < magnitude(y) ==> sigma == x + y
        }),
{
    let ax = magnitude(x);
    let ay = magnitude(y);
    let same = (x < 0) == (y < 0) || y == 0;
    let m = magnitude(x + y);
    assert(m == (if same {
        (ax + ay) as int
    } else {
        ax - ay
    }) as nat);
    lemma_fast2sum_mag(ax, sx, kx, ay, sy, ky, same);
    let r = rnd(m, 0);
    if m == 0 {
        lemma_rnd_zero(0);
    }
    let sigma = with_sign(x + y, r);
    assert(sigma == (if x < 0 {
        -r
    } else {
        r as int
    }));
}

/// A finite number read for `lemma_sum_values`.
proof fn lemma_enc_decomp(b: u64)
    requires
        enc_is_finite(b),
    ensures
        magnitude(scaled(b)) == units(b),
        units(b) == significand(b) * pow2(unit_shift(b)),
        significand(b) < pow2(53),
        unit_shift(b) <= 2045,
        representable(units(b)),
        !overflows(units(b)),
{
    lemma2_to64();
    lemma2_to64_rest();
    lemma_rnd_exact(b);
    lemma_enc_of_units(b);
}

/// A binary64 difference whose exact value is a binary64 number is exact.
proof fn lemma_sub_exact(x: u64, y: u64, v: int)
    requires
        enc_is_finite(x),
        enc_is_finite(y),
        v == scaled(x) - scaled(y),
        representable(magnitude(v)),
        !overflows(magnitude(v)),
    ensures
        enc_is_finite(fsub(x, y)),
        scaled(fsub(x, y)) == v,
{
    lemma_fneg_value(y);
    lemma_round_exact(v, sign_bit(x) && sign_bit(fneg(y)));
}

/// A binary64 sum whose exact value is a binary64 number is exact.
proof fn lemma_add_exact(x: u64, y: u64, v: int)
    requires
        enc_is_finite(x),
        enc_is_finite(y),
        v == scaled(x) + scaled(y),
        representable(magnitude(v)),
        !overflows(magnitude(v)),
    ensures
        enc_is_finite(fadd(x, y)),
        scaled(fadd(x, y)) == v,
{
    lemma_round_exact(v, sign_bit(x) && sign_bit(y));
}

/// 2Sum where `|a| < |b|`: then `a' = s - b` exactly, `b' = b`, and the
/// error term is the rounding error of `s`.
#[verifier::rlimit(60)]
proof fn lemma_two_sum_b_larger(a: u64, b: u64)
    requires
        enc_is_finite(a),
        enc_is_finite(b),
        units(a) < units(b),
        enc_is_finite(two_sum(a, b).0),
    ensures
        enc_is_finite(two_sum(a, b).1),
        scaled(two_sum(a, b).0) + scaled(two_sum(a, b).1) == scaled(a) + scaled(b),
{
    let s = fadd(a, b);
    let ap = fsub(s, b);
    let bp = fsub(s, ap);
    let da = fsub(a, ap);
    let db = fsub(b, bp);
    let alpha = scaled(a);
    let beta = scaled(b);
    lemma_enc_decomp(a);
    lemma_enc_decomp(b);
    lemma_shift_order(b, a);
    lemma_round_signed_value(alpha + beta, sign_bit(a) && sign_bit(b));
    let sigma = scaled(s);
    lemma_sum_values(beta, significand(b), unit_shift(b), alpha, significand(a), unit_shift(a));
    assert(sigma == with_sign(beta + alpha, rnd(magnitude(beta + alpha), 0)));
    let delta = alpha + beta - sigma;
    lemma_sub_exact(s, b, sigma - beta);
    lemma_sub_exact(s, ap, beta);
    lemma_sub_exact(a, ap, delta);
    lemma_representable_small(0, 0);
    lemma_mul_basics(pow2(0) as int);
    lemma_pow2_pos(2098);
    lemma_sub_exact(b, bp, 0);
    lemma_add_exact(da, db, delta);
}

/// 2Sum where `|b| <= |a|`, the first steps: the rounding error `delta`
/// of `s` is a binary64 number, and `a' = s - b` rounds `a - delta`, so
/// that `a - a'` is exact.
#[verifier::rlimit(60)]
proof fn lemma_two_sum_prime(a: u64, b: u64)
    requires
        enc_is_finite(a),
        enc_is_finite(b),
        units(b) <= units(a),
        enc_is_finite(fadd(a, b)),
        enc_is_finite(fsub(fadd(a, b), b)),
    ensures
        units(fadd(a, b)) == rnd(magnitude(scaled(a) + scaled(b)), 0),
        representable(magnitude(scaled(a) + scaled(b) - scaled(fadd(a, b)))),
        magnitude(scaled(a) + scaled(b) - scaled(fadd(a, b))) <= units(b),
        units(fadd(a, b)) < units(b) ==> scaled(fadd(a, b)) == scaled(a) + scaled(b),
        enc_is_finite(fsub(a, fsub(fadd(a, b), b))),
        scaled(fsub(a, fsub(fadd(a, b), b))) == scaled(a) - scaled(fsub(fadd(a, b), b)),
{
    let s = fadd(a, b);
    let ap = fsub(s, b);
    let alpha = scaled(a);
    let beta = scaled(b);
    lemma_enc_decomp(a);
    lemma_enc_decomp(b);
    lemma_shift_order(a, b);
    lemma_round_signed_value(alpha + beta, sign_bit(a) && sign_bit(b));
    let sigma = scaled(s);
    lemma_sum_values(alpha, significand(a), unit_shift(a), beta, significand(b), unit_shift(b));
    assert(magnitude(sigma) == units(s));
    let delta = alpha + beta - sigma;
    // a' rounds a - delta
    lemma_fneg_value(b);
    lemma_round_signed_value(sigma - beta, sign_bit(s) && sign_bit(fneg(b)));
    let kb = unit_shift(b);
    let d = magnitude(delta) / pow2(kb);
    lemma_pow2_pos(kb);
    vstd::arithmetic::div_mod::lemma_fundamental_div_mod(magnitude(delta) as int, pow2(kb) as int);
    lemma_mul_is_commutative(d as int, pow2(kb) as int);
    assert(d < pow2(53)) by {
        if d >= pow2(53) {
            lemma_mul_inequality(pow2(53) as int, d as int, pow2(kb) as int);
            lemma_mul_strict_inequality(significand(b) as int, pow2(53) as int, pow2(kb) as int);
        }
    }
    lemma_sum_values(alpha, significand(a), unit_shift(a), -delta, d, kb);
    assert(alpha + -delta == sigma - beta);
    lemma_sub_exact(a, ap, alpha - scaled(ap));
}

/// 2Sum where `|b| <= |a|` and the sum is exact: nothing is left over.
#[verifier::rlimit(60)]
proof fn lemma_two_sum_exact_sum(a: u64, b: u64)
    requires
        enc_is_finite(a),
        enc_is_finite(b),
        enc_is_finite(fadd(a, b)),
        enc_is_finite(fsub(fadd(a, b), b)),
        scaled(fadd(a, b)) == scaled(a) + scaled(b),
        enc_is_finite(fsub(a, fsub(fadd(a, b), b))),
        scaled(fsub(a, fsub(fadd(a, b), b))) == scaled(a) - scaled(fsub(fadd(a, b), b)),
    ensures
        enc_is_finite(two_sum(a, b).1),
        scaled(two_sum(a, b).0) + scaled(two_sum(a, b).1) == scaled(a) + scaled(b),
{
    let s = fadd(a, b);
    let ap = fsub(s, b);
    let bp = fsub(s, ap);
    let da = fsub(a, ap);
    let db = fsub(b, bp);
    lemma_enc_decomp(a);
    lemma_enc_decomp(b);
    // a' = s - b = a exactly
    lemma_sub_exact(s, b, scaled(a));
    lemma_sub_exact(s, ap, scaled(b));
    lemma_representable_small(0, 0);
    lemma_mul_basics(pow2(0) as int);
    lemma_pow2_pos(2098);
    lemma_sub_exact(b, bp, 0);
    lemma_add_exact(da, db, 0);
}

/// 2Sum where `|b| <= |a|` and `|b| <= |s|`: Fast2Sum on `s` and `-b`
/// makes `s - a'` and `b - b'` exact.
#[verifier::rlimit(80)]
proof fn lemma_two_sum_general(a: u64, b: u64)
    requires
        enc_is_finite(a),
        enc_is_finite(b),
        enc_is_finite(fadd(a, b)),
        enc_is_finite(fsub(fadd(a, b), b)),
        units(b) <= units(fadd(a, b)),
        representable(magnitude(scaled(a) + scaled(b) - scaled(fadd(a, b)))),
        magnitude(scaled(a) + scaled(b) - scaled(fadd(a, b))) <= units(b),
        enc_is_finite(fsub(a, fsub(fadd(a, b), b))),
        scaled(fsub(a, fsub(fadd(a, b), b))) == scaled(a) - scaled(fsub(fadd(a, b), b)),
    ensures
        enc_is_finite(two_sum(a, b).1),
        scaled(two_sum(a, b).0) + scaled(two_sum(a, b).1) == scaled(a) + scaled(b),
{
    let s = fadd(a, b);
    let ap = fsub(s, b);
    let bp = fsub(s, ap);
    let da = fsub(a, ap);
    let db = fsub(b, bp);
    let sigma = scaled(s);
    let beta = scaled(b);
    lemma_enc_decomp(b);
    lemma_enc_decomp(s);
    lemma_shift_order(s, b);
    lemma_fneg_value(b);
    lemma_round_signed_value(sigma - beta, sign_bit(s) && sign_bit(fneg(b)));
    lemma_sum_values(sigma, significand(s), unit_shift(s), -beta, significand(b), unit_shift(b));
    assert(sigma + -beta == sigma - beta);
    let sigma1 = scaled(ap);
    assert(sigma1 == with_sign(sigma - beta, rnd(magnitude(sigma - beta), 0)));
    assert(magnitude(beta - sigma + sigma1) == magnitude(sigma + -beta - sigma1));
    lemma_sub_exact(s, ap, sigma - sigma1);
    lemma_sub_exact(b, bp, beta - sigma + sigma1);
    let delta = scaled(a) + beta - sigma;
    lemma_enc_of_units(b);
    lemma_add_exact(da, db, delta);
}

/// 2Sum is exact: where the sum `s` and the intermediate `a' = s - b` are
/// finite, the error term `t` is finite and `s + t == a + b` exactly.
pub proof fn law_two_sum_exact(a: u64, b: u64)
    requires
        enc_is_finite(a),
        enc_is_finite(b),
        enc_is_finite(two_sum(a, b).0),
        enc_is_finite(fsub(two_sum(a, b).0, b)),
    ensures
        enc_is_finite(two_sum(a, b).1),
        scaled(two_sum(a, b).0) + scaled(two_sum(a, b).1) == scaled(a) + scaled(b),
{
    if units(a) < units(b) {
        lemma_two_sum_b_larger(a, b);
    } else {
        lemma_two_sum_prime(a, b);
        let s = fadd(a, b);
        if units(s) < units(b) {
            lemma_two_sum_exact_sum(a, b);
        } else {
            lemma_two_sum_general(a, b);
        }
    }
}

/// The exact difference 2Diff, `sub_dd(a, b) = two_sum(a, -b)`: where the
/// difference `s` and `s + b` are finite, the error term is finite and
/// `s + t == a - b` exactly.
pub proof fn law_two_diff_exact(a: u64, b: u64)
    requires
        enc_is_finite(a),
        enc_is_finite(b),
        enc_is_finite(two_sum(a, fneg(b)).0),
        enc_is_finite(fsub(two_sum(a, fneg(b)).0, fneg(b))),
    ensures
        enc_is_finite(two_sum(a, fneg(b)).1),
        scaled(two_sum(a, fneg(b)).0) + scaled(two_sum(a, fneg(b)).1) == scaled(a) - scaled(b),
{
    lemma_fneg_value(b);
    law_two_sum_exact(a, fneg(b));
}

/// The exact difference Fast2Diff, `subfast_dd(a, b) = fast_two_sum(a,
/// -b)`: where `|b| <= |a|` and the difference `s` is finite, the error
/// term is finite and `s + t == a - b` exactly.
pub proof fn law_fast_two_diff_exact(a: u64, b: u64)
    requires
        enc_is_finite(a),
        enc_is_finite(b),
        units(b) <= units(a),
        enc_is_finite(fast_two_sum(a, fneg(b)).0),
    ensures
        enc_is_finite(fast_two_sum(a, fneg(b)).1),
        scaled(fast_two_sum(a, fneg(b)).0) + scaled(fast_two_sum(a, fneg(b)).1) == scaled(a)
            - scaled(b),
{
    lemma_fneg_value(b);
    law_fast_two_sum_exact(a, fneg(b));
}

/// The binary64 sum of two finite numbers depends on their exact sum
/// alone, where that sum is not zero (only the sign of a zero sum depends
/// on the operands).
proof fn lemma_fadd_by_value(a: u64, b: u64, c: u64, d: u64)
    requires
        enc_is_finite(a),
        enc_is_finite(b),
        enc_is_finite(c),
        enc_is_finite(d),
        scaled(a) + scaled(b) == scaled(c) + scaled(d),
        scaled(a) + scaled(b) != 0,
    ensures
        fadd(a, b) == fadd(c, d),
{
}

/// Fast2Sum returns a normalized pair: where it is exact (see
/// `law_fast_two_sum_exact`) and the sum is not zero, the binary64 sum of
/// its two parts is its leading part, `s == s + t`.
pub proof fn law_fast_two_sum_normalized(a: u64, b: u64)
    requires
        enc_is_finite(a),
        enc_is_finite(b),
        units(b) <= units(a),
        enc_is_finite(fast_two_sum(a, b).0),
        scaled(a) + scaled(b) != 0,
    ensures
        fadd(fast_two_sum(a, b).0, fast_two_sum(a, b).1) == fast_two_sum(a, b).0,
{
    law_fast_two_sum_exact(a, b);
    lemma_fadd_by_value(fast_two_sum(a, b).0, fast_two_sum(a, b).1, a, b);
}

/// 2Sum returns a normalized pair: where it is exact (see
/// `law_two_sum_exact`) and the sum is not zero, `s == s + t`.
pub proof fn law_two_sum_normalized(a: u64, b: u64)
    requires
        enc_is_finite(a),
        enc_is_finite(b),
        enc_is_finite(two_sum(a, b).0),
        enc_is_finite(fsub(two_sum(a, b).0, b)),
        scaled(a) + scaled(b) != 0,
    ensures
        fadd(two_sum(a, b).0, two_sum(a, b).1) == two_sum(a, b).0,
{
    law_two_sum_exact(a, b);
    lemma_fadd_by_value(two_sum(a, b).0, two_sum(a, b).1, a, b);
}

/// 2Prod returns a normalized pair: where it is exact (see
/// `law_two_prod_exact`) and the product is not zero, the binary64 sum of
/// the product and its error term is the product, `p == p + e`.
pub proof fn law_two_prod_normalized(a: u64, b: u64)
    requires
        enc_is_finite(a),
        enc_is_finite(b),
        unit_shift(a) + unit_shift(b) >= 1074,
        enc_is_finite(two_prod(a, b).0),
        scaled(a) * scaled(b) != 0,
    ensures
        fadd(two_prod(a, b).0, two_prod(a, b).1) == two_prod(a, b).0,
{
    law_two_prod_exact(a, b);
    let p = two_prod(a, b).0;
    let e = two_prod(a, b).1;
    let w = scaled(p) + scaled(e);
    assert(w != 0) by {
        if w == 0 {
            lemma_mul_basics(pow2(1074) as int);
        }
    }
    lemma_round_signed_shift(w, sign_bit(a) != sign_bit(b));
}

/// `abs` forgets a negation: `|-x|` and `|x|` have the same parts.
proof fn lemma_abs_neg(x: (u64, u64))
    ensures
        abs_parts(neg_parts(x)) == abs_parts(x),
        enc_is_nan(neg_parts(x).0) == enc_is_nan(x.0),
{
    lemma_fneg(x.0);
    lemma_fneg(x.1);
}

/// Flipping the sign of the second argument of `copysign` negates its
/// result, where the first argument is not changed.
proof fn lemma_copysign_neg(v: (u64, u64), x: (u64, u64))
    ensures
        copysign_parts(v, neg_parts(x)) == neg_parts(copysign_parts(v, x)),
{
    lemma_fneg(x.0);
    lemma_fneg(v.0);
    lemma_fneg(v.1);
}

/// The hyperbolic cosine is even: `cosh(-x)` and `cosh(x)` have the same
/// parts, and `cosh` accepts `-x` exactly where it accepts `x`.
pub proof fn law_cosh_even(x: Df64)
    ensures
        cosh_spec(neg_parts(parts(x))) == cosh_spec(parts(x)),
        cosh_accepts(neg_parts(parts(x))) == cosh_accepts(parts(x)),
{
    lemma_abs_neg(parts(x));
}

/// The hyperbolic sine is odd: for `x` other than NaN, `sinh(-x)` is
/// `sinh(x)` negated part by part, and `sinh` accepts `-x` exactly where it
/// accepts `x`.
pub proof fn law_sinh_odd(x: Df64)
    requires
        !enc_is_nan(x.hi_part()),
    ensures
        sinh_spec(neg_parts(parts(x))) == neg_parts(sinh_spec(parts(x))),
        cosh_accepts(neg_parts(parts(x))) == cosh_accepts(parts(x)),
{
    let p = parts(x);
    lemma_abs_neg(p);
    let xx = abs_parts(p);
    if !enc_le(xx.0, COSH_MAX) {
        lemma_copysign_neg((INFINITY, 0), p);
    } else {
        let sp = expm1_split_spec(xx);
        let y = sp.1;
        if sp.0 == 0 {
            let dn = addfast_dq_spec(ONE, (fmul(y.0, HALF), fmul(y.1, HALF)));
            let en = addfast_dq_spec(ONE, y);
            lemma_copysign_neg(mul_qq_spec(reciprocal_q_spec(en), mul_qq_spec(y, dn)), p);
        } else {
            let e = exp_half(xx);
            lemma_copysign_neg(e, p);
            lemma_copysign_neg(addfast_qq_spec(e, neg_parts(exp_minus_half(e))), p);
        }
    }
}

/// The hyperbolic tangent is odd: for `x` other than NaN, `tanh(-x)` is
/// `tanh(x)` negated part by part, and `tanh` accepts `-x` exactly where it
/// accepts `x`.
pub proof fn law_tanh_odd(x: Df64)
    requires
        !enc_is_nan(x.hi_part()),
    ensures
        tanh_spec(neg_parts(parts(x))) == neg_parts(tanh_spec(parts(x))),
        tanh_accepts(neg_parts(parts(x))) == tanh_accepts(parts(x)),
{
    let p = parts(x);
    lemma_abs_neg(p);
    let xx = abs_parts(p);
    lemma_copysign_neg((ONE, 0), p);
    let y = expm1_spec(xx);
    let z = mul_qq_spec(y, add_qd_spec(y, TWO));
    lemma_copysign_neg(mul_qq_spec(reciprocal_q_spec(add_qd_spec(z, TWO)), z), p);
}

// ---------------------------------------------------------------------------
// Negation

/// Rounding a negated value gives the negated encoding: `round_enc` with
/// the other sign is `round_enc` negated.
proof fn lemma_round_enc_neg(neg: bool, m: nat, e: int)
    ensures
        round_enc(!neg, m, e) == fneg(round_enc(neg, m, e)),
{
    let x = round_enc(neg, m, e);
    let y = round_enc(!neg, m, e);
    lemma_round_enc_value(neg, m, e);
    lemma_round_enc_value(!neg, m, e);
    lemma_fneg(x);
    if overflows(rnd(m, e)) {
        lemma_fields_determine(y, fneg(x));
    } else {
        law_encoding_unique(y, fneg(x));
    }
}

/// Rounding a negated value, with the other sign for a zero, gives the
/// negated encoding.
pub proof fn lemma_round_signed_neg(v: int, e: int, zneg: bool)
    ensures
        round_signed(-v, e, !zneg) == fneg(round_signed(v, e, zneg)),
{
    if v == 0 {
        lemma2_to64();
        lemma_enc_parts(zneg, 0, 0);
        lemma_enc_parts(!zneg, 0, 0);
        lemma_fneg(enc_parts(zneg, 0, 0));
        lemma_fields_determine(enc_parts(!zneg, 0, 0), fneg(enc_parts(zneg, 0, 0)));
    } else if v < 0 {
        lemma_round_enc_neg(true, (-v) as nat, e);
    } else {
        lemma_round_enc_neg(false, v as nat, e);
    }
}

/// Negating both factors leaves a product unchanged: `(-a) * (-b)` and
/// `a * b` are the same encoding.
proof fn lemma_fmul_neg_neg(a: u64, b: u64)
    ensures
        fmul(fneg(a), fneg(b)) == fmul(a, b),
{
    lemma_fneg(a);
    lemma_fneg(b);
    if enc_is_finite(a) && enc_is_finite(b) {
        lemma_fneg_value(a);
        lemma_fneg_value(b);
        lemma_mul_unary_negation(scaled(a), -scaled(b));
        lemma_mul_unary_negation(scaled(a), scaled(b));
    }
}

/// Negating both factors leaves a fused multiply-add unchanged.
proof fn lemma_ffma_neg_neg(a: u64, b: u64, c: u64)
    ensures
        ffma(fneg(a), fneg(b), c) == ffma(a, b, c),
{
    lemma_fneg(a);
    lemma_fneg(b);
    if enc_is_finite(a) && enc_is_finite(b) {
        lemma_fneg_value(a);
        lemma_fneg_value(b);
        lemma_mul_unary_negation(scaled(a), -scaled(b));
        lemma_mul_unary_negation(scaled(a), scaled(b));
    }
}

/// Doubling a negated number other than NaN gives the negated double:
/// `(-a) + (-a)` is `-(a + a)`.
proof fn lemma_fadd_double_neg(a: u64)
    requires
        !enc_is_nan(a),
    ensures
        fadd(fneg(a), fneg(a)) == fneg(fadd(a, a)),
{
    lemma_fneg(a);
    if enc_is_finite(a) {
        lemma_fneg_value(a);
        lemma_round_signed_neg(scaled(a) + scaled(a), 0, sign_bit(a) && sign_bit(a));
    }
}

/// A square does not see the sign of its argument: `square_q(-x)` and
/// `square_q(x)` have the same parts.
pub proof fn law_square_q_even(x: Df64)
    ensures
        square_q_spec(neg_parts(parts(x))) == square_q_spec(parts(x)),
{
    let p = parts(x);
    lemma_fmul_neg_neg(p.0, p.0);
    lemma_ffma_neg_neg(p.0, p.0, fneg(fmul(p.0, p.0)));
    lemma_fneg(p.1);
    let y = two_prod(p.0, p.0);
    if enc_is_nan(p.1) {
        assert(fadd(fneg(p.1), fneg(p.1)) == fadd(p.1, p.1));
    } else {
        lemma_fadd_double_neg(p.1);
        lemma_ffma_neg_neg(fadd(p.1, p.1), p.0, y.1);
    }
}

/// The cosine series is even: `cos_kernel(-x)` and `cos_kernel(x)` have
/// the same parts.
pub proof fn law_cos_kernel_even(x: Df64)
    ensures
        cos_kernel_spec(neg_parts(parts(x))) == cos_kernel_spec(parts(x)),
{
    law_square_q_even(x);
}

} // verus!
