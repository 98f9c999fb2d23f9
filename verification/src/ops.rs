//! Binary64 arithmetic on encodings, rounded to nearest, ties to even.
//!
//! Each operation is specified by the exact result of the operation on the
//! values of its operands, rounded once (`rounding`), with the IEEE 754
//! rules for infinities, NaN and the sign of zero.  A NaN result is the
//! quiet NaN `NAN`; the payload of a NaN operand is not carried over.
use crate::ieee::{
    assemble, bitlen, enc_is_finite, lemma_bitlen_bounds, lemma_rne_shr_bounds, rne_shr, enc_is_infinite, enc_is_nan, enc_is_zero, exp_field, fields,
    frac_field, lemma_div_mod_shifted, lemma_fields_determine, lemma_pow2_big, lemma_units_bounds, pow2_u128,
    scaled, sign_bit, significand, two52, unit_shift, units,
};
use crate::convert::signed;
use crate::rounding::{
    enc_of, grid, lemma_div_pow2_bounds_pub, lemma_rne_shr_small, lemma_round_enc_value, overflows,
    representable,
    bit_length128, lemma_bitlen_unique_ge, lemma_sticky,
    enc_parts, infinity, lemma_enc_of_units, lemma_enc_parts, lemma_pow2_le, lemma_rnd_at,
    lemma_rnd_exact, lemma_rnd_shift, lemma_rne_shr_decomp, lemma_rnd_zero, rnd, round_enc,
    round_pack,
};
use vstd::arithmetic::div_mod::*;
use vstd::arithmetic::mul::*;
use vstd::arithmetic::power2::*;
use vstd::prelude::*;

verus! {

/// The quiet NaN that an invalid operation, or an operation on NaN, gives.
pub const NAN: u64 = 0x7ff8_0000_0000_0000u64;

/// The binary64 number nearest to the exact value `s * 2^e` units; an exact
/// zero is the zero of sign `zneg`.
pub open spec fn round_signed(s: int, e: int, zneg: bool) -> u64 {
    if s == 0 {
        enc_parts(zneg, 0, 0)
    } else if s < 0 {
        round_enc(true, (-s) as nat, e)
    } else {
        round_enc(false, s as nat, e)
    }
}

/// The binary64 sum `a + b`.
pub open spec fn fadd(a: u64, b: u64) -> u64 {
    if enc_is_nan(a) || enc_is_nan(b) {
        NAN
    } else if enc_is_infinite(a) {
        if enc_is_infinite(b) && sign_bit(a) != sign_bit(b) {
            NAN
        } else {
            a
        }
    } else if enc_is_infinite(b) {
        b
    } else {
        round_signed(scaled(a) + scaled(b), 0, sign_bit(a) && sign_bit(b))
    }
}

/// The negation of `b`: its sign bit flipped.
pub open spec fn fneg(b: u64) -> u64 {
    b ^ 0x8000_0000_0000_0000u64
}

/// The binary64 difference `a - b`, which is `a + (-b)`.
pub open spec fn fsub(a: u64, b: u64) -> u64 {
    fadd(a, fneg(b))
}

// ---------------------------------------------------------------------------
// Reading a finite number

/// The sign, the significand and the unit shift of a finite number, so that
/// its magnitude is `significand * 2^shift` units.
pub fn unpack(b: u64) -> (r: (bool, u64, u64))
    requires
        enc_is_finite(b),
    ensures
        r.0 == sign_bit(b),
        r.1 == significand(b),
        r.2 == unit_shift(b),
        r.1 < 0x20_0000_0000_0000,
        r.2 < 0x7ff,
        r.2 > 0 ==> r.1 >= two52(),
{
    let (s, e, f) = fields(b);
    if e == 0 {
        (s, f, 0)
    } else {
        (s, f + 0x10_0000_0000_0000, e - 1)
    }
}

/// The fields of the negation.
pub proof fn lemma_fneg(b: u64)
    ensures
        sign_bit(fneg(b)) == !sign_bit(b),
        exp_field(fneg(b)) == exp_field(b),
        frac_field(fneg(b)) == frac_field(b),
        fneg(fneg(b)) == b,
{
    let r = fneg(b);
    assert(((r >= 0x8000_0000_0000_0000u64) == !(b >= 0x8000_0000_0000_0000u64)) && (r
        / 0x10_0000_0000_0000) % 0x800 == (b / 0x10_0000_0000_0000) % 0x800 && r
        % 0x10_0000_0000_0000 == b % 0x10_0000_0000_0000 && (r ^ 0x8000_0000_0000_0000u64) == b)
        by (bit_vector)
        requires
            r == b ^ 0x8000_0000_0000_0000u64,
    ;
}

/// Negation: the sign bit flipped.
pub fn neg_enc(b: u64) -> (r: u64)
    ensures
        r == fneg(b),
{
    b ^ 0x8000_0000_0000_0000u64
}

// ---------------------------------------------------------------------------
// Addition

/// A number far below the last bit of `a` does not move `a`: where the unit
/// shift of `a` exceeds that of `b` by more than 70, `a + b` rounds to `a`.
pub proof fn lemma_add_far(a: u64, b: u64, zneg: bool)
    requires
        enc_is_finite(a),
        enc_is_finite(b),
        unit_shift(a) > unit_shift(b) + 70,
    ensures
        round_signed(scaled(a) + scaled(b), 0, zneg) == a,
{
    lemma2_to64();
    lemma2_to64_rest();
    let k = unit_shift(a);
    let sig = significand(a);
    let u = units(a);
    let s = units(b);
    let kb = unit_shift(b);
    lemma_units_bounds(a);
    lemma_units_bounds(b);
    lemma_enc_of_units(a);
    assert(exp_field(a) >= 72);
    assert(sig >= two52());
    // s < 2^(53 + kb) <= 2^(k - 18)
    assert(s < pow2((k - 18) as nat)) by {
        if exp_field(b) == 0 {
            lemma_pow2_le(52, (k - 18) as nat);
            assert(pow2(0) == 1);
        } else {
            lemma_pow2_adds(52, exp_field(b));
            lemma_pow2_le(52 + exp_field(b), (k - 18) as nat);
        }
    }
    lemma_pow2_le((k - 18) as nat, (k - 2) as nat);
    lemma_pow2_unfold((k - 1) as nat);
    lemma_pow2_unfold(k);
    lemma_pow2_pos((k - 2) as nat);
    if sign_bit(a) == sign_bit(b) || s == 0 {
        lemma_rnd_at(u + s, sig, s, k);
        lemma_rne_shr_decomp(u + s, sig, s, k);
        assert(rnd((u + s) as nat, 0) == u);
        assert(scaled(a) + scaled(b) == (if sign_bit(a) {
            -(u + s)
        } else {
            (u + s) as int
        }));
    } else {
        assert(scaled(a) + scaled(b) == (if sign_bit(a) {
            -(u - s)
        } else {
            u - s
        }));
        let pk = pow2(k);
        if sig > two52() {
            let q = (sig - 1) as nat;
            let r = (pk - s) as nat;
            assert(u - s == q * pk + r) by (nonlinear_arith)
                requires
                    u == sig * pk,
                    q == sig - 1,
                    r == pk - s,
            ;
            lemma_rnd_at((u - s) as nat, q, r, k);
            lemma_rne_shr_decomp((u - s) as nat, q, r, k);
        } else {
            let p1 = pow2((k - 1) as nat);
            let q = (pow2(53) - 1) as nat;
            let r = (p1 - s) as nat;
            assert(u - s == q * p1 + r) by (nonlinear_arith)
                requires
                    u == sig * pk,
                    sig == 0x10_0000_0000_0000,
                    pk == 2 * p1,
                    q == 0x20_0000_0000_0000 - 1,
                    r == p1 - s,
            ;
            lemma_rnd_at((u - s) as nat, q, r, (k - 1) as nat);
            lemma_rne_shr_decomp((u - s) as nat, q, r, (k - 1) as nat);
            assert((q + 1) * p1 == u) by (nonlinear_arith)
                requires
                    u == sig * pk,
                    sig == 0x10_0000_0000_0000,
                    pk == 2 * p1,
                    q == 0x20_0000_0000_0000 - 1,
            ;
        }
        assert(rnd((u - s) as nat, 0) == u);
    }
}


/// The exact sum of two finite numbers, aligned to the unit shift `k`:
/// `big_a` and `big_b` are their magnitudes in units of `2^k`, and `m` the
/// magnitude of the sum, of sign `neg`.
proof fn lemma_add_aligned(a: u64, b: u64, k: nat, big_a: nat, big_b: nat, neg: bool, m: nat)
    requires
        enc_is_finite(a),
        enc_is_finite(b),
        k <= unit_shift(a),
        k <= unit_shift(b),
        big_a == significand(a) * pow2((unit_shift(a) - k) as nat),
        big_b == significand(b) * pow2((unit_shift(b) - k) as nat),
        sign_bit(a) == sign_bit(b) ==> neg == sign_bit(a) && m == big_a + big_b,
        sign_bit(a) != sign_bit(b) && big_a >= big_b ==> neg == sign_bit(a) && m == big_a - big_b,
        sign_bit(a) != sign_bit(b) && big_a < big_b ==> neg == sign_bit(b) && m == big_b - big_a,
    ensures
        (scaled(a) + scaled(b) == 0) == (m == 0),
        m > 0 ==> round_signed(scaled(a) + scaled(b), 0, sign_bit(a) && sign_bit(b))
            == round_enc(neg, m, k as int),
{
    let ka = unit_shift(a);
    let kb = unit_shift(b);
    let pk = pow2(k);
    lemma_pow2_pos(k);
    lemma_pow2_adds((ka - k) as nat, k);
    lemma_pow2_adds((kb - k) as nat, k);
    lemma_mul_is_associative(significand(a) as int, pow2((ka - k) as nat) as int, pk as int);
    lemma_mul_is_associative(significand(b) as int, pow2((kb - k) as nat) as int, pk as int);
    assert(units(a) == big_a * pk);
    assert(units(b) == big_b * pk);
    let s = scaled(a) + scaled(b);
    assert(s == (if neg {
        -(m * pk)
    } else {
        (m * pk) as int
    })) by (nonlinear_arith)
        requires
            units(a) == big_a * pk,
            units(b) == big_b * pk,
            s == scaled(a) + scaled(b),
            scaled(a) == (if sign_bit(a) {
                -units(a)
            } else {
                units(a) as int
            }),
            scaled(b) == (if sign_bit(b) {
                -units(b)
            } else {
                units(b) as int
            }),
            sign_bit(a) == sign_bit(b) ==> neg == sign_bit(a) && m == big_a + big_b,
            sign_bit(a) != sign_bit(b) && big_a >= big_b ==> neg == sign_bit(a) && m == big_a - big_b,
            sign_bit(a) != sign_bit(b) && big_a < big_b ==> neg == sign_bit(b) && m == big_b - big_a,
    ;
    if m > 0 {
        lemma_mul_strictly_positive(m as int, pk as int);
    } else {
        lemma_mul_basics(pk as int);
    }
    lemma_rnd_shift(m, 0, k);
}

/// Binary64 addition.
pub fn add_enc(a: u64, b: u64) -> (r: u64)
    ensures
        r == fadd(a, b),
{
    let (_sa, ea, fa) = fields(a);
    let (_sb, eb, fb) = fields(b);
    if (ea == 0x7ff && fa != 0) || (eb == 0x7ff && fb != 0) {
        return NAN;
    }
    if ea == 0x7ff {
        if eb == 0x7ff && _sa != _sb {
            return NAN;
        }
        return a;
    }
    if eb == 0x7ff {
        return b;
    }
    let (sa, ma, ka) = unpack(a);
    let (sb, mb, kb) = unpack(b);
    if ka > kb + 70 {
        proof {
            lemma_add_far(a, b, sa && sb);
        }
        return a;
    }
    if kb > ka + 70 {
        proof {
            lemma_add_far(b, a, sa && sb);
        }
        return b;
    }
    let k: u64 = if ka < kb {
        ka
    } else {
        kb
    };
    proof {
        lemma_pow2_big();
        lemma2_to64();
        lemma2_to64_rest();
        lemma_pow2_le((ka - k) as nat, 70);
        lemma_pow2_le((kb - k) as nat, 70);
        lemma_pow2_adds(53, 70);
        lemma_pow2_le(123, 127);
        lemma_pow2_le(124, 127);
        lemma_pow2_adds(123, 1);
        lemma_mul_upper_bound(ma as int, pow2(53) as int, pow2((ka - k) as nat) as int, pow2(70) as int);
        lemma_mul_upper_bound(mb as int, pow2(53) as int, pow2((kb - k) as nat) as int, pow2(70) as int);
    }
    let big_a: u128 = (ma as u128) * pow2_u128(ka - k);
    let big_b: u128 = (mb as u128) * pow2_u128(kb - k);
    let neg: bool;
    let m: u128;
    if sa == sb {
        neg = sa;
        m = big_a + big_b;
    } else if big_a >= big_b {
        neg = sa;
        m = big_a - big_b;
    } else {
        neg = sb;
        m = big_b - big_a;
    }
    proof {
        lemma_add_aligned(a, b, k as nat, big_a as nat, big_b as nat, neg, m as nat);
    }
    if m == 0 {
        let z = assemble(sa && sb, 0, 0);
        proof {
            lemma_enc_parts(sa && sb, 0, 0);
            lemma_fields_determine(z, enc_parts(sa && sb, 0, 0));
        }
        return z;
    }
    round_pack(neg, m, k as i64)
}

/// Binary64 subtraction.
pub fn sub_enc(a: u64, b: u64) -> (r: u64)
    ensures
        r == fsub(a, b),
{
    add_enc(a, neg_enc(b))
}

// ---------------------------------------------------------------------------
// Rounding to an integer

/// `v / 2^1074` rounded down to an integer, times 2^1074.
pub open spec fn floor_units(v: int) -> int {
    (v / (pow2(1074) as int)) * pow2(1074)
}

/// `v / 2^1074` rounded up to an integer, times 2^1074.
pub open spec fn ceil_units(v: int) -> int {
    -floor_units(-v)
}

/// `v / 2^1074` rounded toward zero to an integer, times 2^1074.
pub open spec fn trunc_units(v: int) -> int {
    if v < 0 {
        ceil_units(v)
    } else {
        floor_units(v)
    }
}

/// The largest integer not above `b`; a zero result keeps the sign of `b`.
pub open spec fn ffloor(b: u64) -> u64 {
    if enc_is_nan(b) {
        NAN
    } else if enc_is_infinite(b) {
        b
    } else {
        round_signed(floor_units(scaled(b)), 0, sign_bit(b))
    }
}

/// The smallest integer not below `b`; a zero result keeps the sign of `b`.
pub open spec fn fceil(b: u64) -> u64 {
    if enc_is_nan(b) {
        NAN
    } else if enc_is_infinite(b) {
        b
    } else {
        round_signed(ceil_units(scaled(b)), 0, sign_bit(b))
    }
}

/// The integer part of `b`; a zero result keeps the sign of `b`.
pub open spec fn ftrunc(b: u64) -> u64 {
    if enc_is_nan(b) {
        NAN
    } else if enc_is_infinite(b) {
        b
    } else {
        round_signed(trunc_units(scaled(b)), 0, sign_bit(b))
    }
}

/// Floor division of a negative number.
proof fn lemma_div_neg(u: nat, p: nat)
    requires
        p > 0,
    ensures
        (-u) / (p as int) == -(u / p) - (if u % p != 0 {
            1int
        } else {
            0int
        }),
{
    lemma_fundamental_div_mod(u as int, p as int);
    lemma_mod_bound(u as int, p as int);
    let q = (u / p) as int;
    let r = (u % p) as int;
    if r != 0 {
        assert(-u == (-q - 1) * p + (p - r)) by (nonlinear_arith)
            requires
                u == p * q + r,
        ;
        lemma_fundamental_div_mod_converse(-u, p as int, -q - 1, p - r);
    } else {
        assert(-u == (-q) * p + 0) by (nonlinear_arith)
            requires
                u == p * q + r,
                r == 0,
        ;
        lemma_fundamental_div_mod_converse(-u, p as int, -q, 0);
    }
}

/// A number whose lowest significand bit weighs at least 1 is an integer.
pub proof fn lemma_is_integer(b: u64)
    requires
        enc_is_finite(b),
        unit_shift(b) >= 1074,
    ensures
        floor_units(scaled(b)) == scaled(b),
        ceil_units(scaled(b)) == scaled(b),
        round_signed(scaled(b), 0, sign_bit(b)) == b,
{
    let k = unit_shift(b);
    let p = pow2(1074);
    lemma_pow2_pos(1074);
    lemma_pow2_adds((k - 1074) as nat, 1074);
    let q = significand(b) * pow2((k - 1074) as nat);
    lemma_mul_is_associative(significand(b) as int, pow2((k - 1074) as nat) as int, p as int);
    assert(units(b) == q * p);
    lemma_div_by_multiple(q as int, p as int);
    lemma_mul_unary_negation(q as int, p as int);
    lemma_fundamental_div_mod_converse(-(q * p), p as int, -q, 0);
    lemma_rnd_exact(b);
    lemma_enc_of_units(b);
    lemma_units_bounds(b);
    assert(units(b) > 0);
}

/// The integer part of a finite number below 2^52 in magnitude: its sign,
/// the magnitude of its integer part, and whether a fraction was cut off.
fn int_part(b: u64) -> (r: (bool, u64, bool))
    requires
        enc_is_finite(b),
        unit_shift(b) < 1074,
    ensures
        r.0 == sign_bit(b),
        r.1 == units(b) / pow2(1074),
        r.2 == (units(b) % pow2(1074) != 0),
        r.1 < two52(),
{
    let (s, sig, k) = unpack(b);
    let sh: u64 = 1074 - k;
    proof {
        lemma_div_mod_shifted(sig as nat, k as nat, 1074);
        lemma_pow2_pos(k as nat);
        lemma_pow2_pos(sh as nat);
        lemma2_to64();
        lemma2_to64_rest();
        lemma_mul_basics(pow2(k as nat) as int);
        let md = sig as nat % pow2(sh as nat);
        if md > 0 {
            lemma_mul_strictly_positive(md as int, pow2(k as nat) as int);
        }
    }
    if sh >= 64 {
        proof {
            lemma_pow2_le(53, sh as nat);
            lemma_fundamental_div_mod_converse(sig as int, pow2(sh as nat) as int, 0, sig as int);
        }
        (s, 0, sig != 0)
    } else {
        proof {
            vstd::bits::lemma_u64_pow2_no_overflow(sh as nat);
            vstd::bits::lemma_u64_shl_is_mul(1, sh);
            lemma_div_is_ordered_by_denominator(sig as int, 2, pow2(sh as nat) as int);
            lemma_pow2_le(1, sh as nat);
        }
        let p: u64 = 1u64 << sh;
        (s, sig / p, sig % p != 0)
    }
}

/// The binary64 number `m * 2^1074` units (an integer), with sign `neg`,
/// is what `round_signed` gives for that value.
proof fn lemma_int_result(v: int, m: nat, neg: bool, zneg: bool)
    requires
        v == (if neg {
            -(m * pow2(1074))
        } else {
            (m * pow2(1074)) as int
        }),
        m == 0 ==> zneg == neg,
    ensures
        round_signed(v, 0, zneg) == round_enc(neg, m, 1074),
{
    lemma_pow2_pos(1074);
    lemma_rnd_shift(m, 0, 1074);
    if m == 0 {
        lemma_rnd_zero(1074);
        lemma_pow2_pos(2098);
        lemma_mul_basics(pow2(1074) as int);
    } else {
        lemma_mul_strictly_positive(m as int, pow2(1074) as int);
    }
}

/// Rounds down to an integer.
pub fn floor_enc(b: u64) -> (r: u64)
    ensures
        r == ffloor(b),
{
    let (_s, e, f) = fields(b);
    if e == 0x7ff {
        return if f != 0 {
            NAN
        } else {
            b
        };
    }
    let (_s, _m, k) = unpack(b);
    if k >= 1074 {
        proof {
            lemma_is_integer(b);
        }
        return b;
    }
    let (neg, t, frac) = int_part(b);
    let m: u64 = if neg && frac {
        t + 1
    } else {
        t
    };
    proof {
        let p = pow2(1074);
        lemma_pow2_pos(1074);
        if neg {
            lemma_div_neg(units(b), p);
        }
        lemma_mul_unary_negation(m as int, p as int);
        lemma_int_result(floor_units(scaled(b)), m as nat, neg, sign_bit(b));
    }
    round_pack(neg, m as u128, 1074)
}

/// Rounds up to an integer.
pub fn ceil_enc(b: u64) -> (r: u64)
    ensures
        r == fceil(b),
{
    let (_s, e, f) = fields(b);
    if e == 0x7ff {
        return if f != 0 {
            NAN
        } else {
            b
        };
    }
    let (_s, _m, k) = unpack(b);
    if k >= 1074 {
        proof {
            lemma_is_integer(b);
        }
        return b;
    }
    let (neg, t, frac) = int_part(b);
    let m: u64 = if !neg && frac {
        t + 1
    } else {
        t
    };
    proof {
        let p = pow2(1074);
        lemma_pow2_pos(1074);
        if !neg {
            lemma_div_neg(units(b), p);
        }
        lemma_mul_unary_negation(m as int, p as int);
        lemma_int_result(ceil_units(scaled(b)), m as nat, neg, sign_bit(b));
    }
    round_pack(neg, m as u128, 1074)
}

/// Rounds toward zero to an integer.
pub fn trunc_enc(b: u64) -> (r: u64)
    ensures
        r == ftrunc(b),
{
    let (_s, e, f) = fields(b);
    if e == 0x7ff {
        return if f != 0 {
            NAN
        } else {
            b
        };
    }
    let (_s, _m, k) = unpack(b);
    if k >= 1074 {
        proof {
            lemma_is_integer(b);
        }
        return b;
    }
    let (neg, t, _frac) = int_part(b);
    proof {
        let p = pow2(1074);
        lemma_pow2_pos(1074);
        lemma_mul_unary_negation(t as int, p as int);
        lemma_int_result(trunc_units(scaled(b)), t as nat, neg, sign_bit(b));
    }
    round_pack(neg, t as u128, 1074)
}

// ---------------------------------------------------------------------------
// Multiplication and fused multiply-add

/// The binary64 product `a * b`.
pub open spec fn fmul(a: u64, b: u64) -> u64 {
    let neg = sign_bit(a) != sign_bit(b);
    if enc_is_nan(a) || enc_is_nan(b) {
        NAN
    } else if enc_is_infinite(a) || enc_is_infinite(b) {
        if enc_is_zero(a) || enc_is_zero(b) {
            NAN
        } else {
            infinity(neg)
        }
    } else {
        round_signed(scaled(a) * scaled(b), -1074, neg)
    }
}

/// The binary64 fused multiply-add `a * b + c`, rounded once.
pub open spec fn ffma(a: u64, b: u64, c: u64) -> u64 {
    let neg = sign_bit(a) != sign_bit(b);
    if enc_is_nan(a) || enc_is_nan(b) || enc_is_nan(c) {
        NAN
    } else if enc_is_infinite(a) || enc_is_infinite(b) {
        if enc_is_zero(a) || enc_is_zero(b) {
            NAN
        } else if enc_is_infinite(c) && sign_bit(c) != neg {
            NAN
        } else {
            infinity(neg)
        }
    } else if enc_is_infinite(c) {
        c
    } else {
        round_signed(
            scaled(a) * scaled(b) + scaled(c) * pow2(1074),
            -1074,
            neg && sign_bit(c),
        )
    }
}

/// The exact product of two finite numbers.
pub proof fn lemma_product(a: u64, b: u64)
    requires
        enc_is_finite(a),
        enc_is_finite(b),
    ensures
        scaled(a) * scaled(b) == (if sign_bit(a) != sign_bit(b) {
            -(significand(a) * significand(b) * pow2(unit_shift(a) + unit_shift(b)))
        } else {
            (significand(a) * significand(b) * pow2(unit_shift(a) + unit_shift(b))) as int
        }),
{
    let sa = significand(a);
    let sb = significand(b);
    let pa = pow2(unit_shift(a));
    let pb = pow2(unit_shift(b));
    lemma_pow2_adds(unit_shift(a), unit_shift(b));
    assert(units(a) * units(b) == sa * sb * (pa * pb)) by (nonlinear_arith)
        requires
            units(a) == sa * pa,
            units(b) == sb * pb,
    ;
    assert(scaled(a) * scaled(b) == (if sign_bit(a) != sign_bit(b) {
        -(units(a) * units(b))
    } else {
        (units(a) * units(b)) as int
    })) by (nonlinear_arith)
        requires
            scaled(a) == (if sign_bit(a) {
                -units(a)
            } else {
                units(a) as int
            }),
            scaled(b) == (if sign_bit(b) {
                -units(b)
            } else {
                units(b) as int
            }),
    ;
}

/// Binary64 multiplication.
pub fn mul_enc(a: u64, b: u64) -> (r: u64)
    ensures
        r == fmul(a, b),
{
    let (sa, ea, fa) = fields(a);
    let (sb, eb, fb) = fields(b);
    let neg = sa != sb;
    if (ea == 0x7ff && fa != 0) || (eb == 0x7ff && fb != 0) {
        return NAN;
    }
    if ea == 0x7ff || eb == 0x7ff {
        if (ea == 0 && fa == 0) || (eb == 0 && fb == 0) {
            return NAN;
        }
        let inf = assemble(neg, 0x7ff, 0);
        proof {
            lemma_enc_parts(neg, 0x7ff, 0);
            lemma_fields_determine(inf, infinity(neg));
        }
        return inf;
    }
    let (_sa, ma, ka) = unpack(a);
    let (_sb, mb, kb) = unpack(b);
    proof {
        lemma2_to64();
        lemma2_to64_rest();
        lemma_pow2_big();
        lemma_mul_upper_bound(ma as int, pow2(53) as int, mb as int, pow2(53) as int);
        lemma_pow2_adds(53, 53);
        lemma_pow2_le(106, 127);
    }
    let p: u128 = (ma as u128) * (mb as u128);
    proof {
        lemma_product(a, b);
        let k = (ka + kb) as nat;
        lemma_pow2_pos(k);
        lemma_rnd_shift(p as nat, -1074, k);
        if p > 0 {
            lemma_mul_strictly_positive(p as int, pow2(k) as int);
        } else {
            lemma_mul_basics(pow2(k) as int);
            lemma_rnd_zero(-1074);
            lemma_rnd_zero(k - 1074);
            lemma_pow2_pos(2098);
        }
    }
    round_pack(neg, p, (ka + kb) as i64 - 1074)
}

/// The exact result of `a * b + c` times 2^125, aligned: the higher term
/// `big * 2^e1` and the lower term read against it.
proof fn lemma_shift125(s: int, v: nat)
    requires
        v == (if s < 0 {
            -s
        } else {
            s
        }) * pow2(125),
    ensures
        s != 0 ==> round_signed(s, -1074, false) == round_enc(s < 0, v, -1199),
        s != 0 ==> round_signed(s, -1074, true) == round_enc(s < 0, v, -1199),
{
    let m: nat = (if s < 0 {
        -s
    } else {
        s
    }) as nat;
    lemma_rnd_shift(m, -1199, 125);
}

/// Rounds `±mh * 2^eh ± ml * 2^el` (in units of 2^-2148), where the first
/// term has the higher leading bit: the sum is formed exactly where the
/// terms overlap, and with a sticky bit where the lower term lies below a
/// window of 125 bits under the leading bit.
fn round_sum(hneg: bool, mh: u128, eh: u64, lneg: bool, ml: u128, el: u64) -> (r: u64)
    requires
        0 < mh < pow2(106),
        0 < ml < pow2(106),
        eh <= 5000,
        el <= 5000,
        bitlen(ml as nat) + el <= bitlen(mh as nat) + eh,
    ensures
        r == round_signed(
            signed(hneg, mh * pow2(eh as nat)) + signed(lneg, ml * pow2(el as nat)),
            -1074,
            hneg && lneg,
        ),
{
    proof {
        lemma2_to64();
        lemma2_to64_rest();
        lemma_pow2_big();
        lemma_bitlen_bounds(mh as nat);
        lemma_bitlen_bounds(ml as nat);
        if bitlen(mh as nat) > 106 {
            lemma_pow2_le(106, (bitlen(mh as nat) - 1) as nat);
        }
        if bitlen(ml as nat) > 106 {
            lemma_pow2_le(106, (bitlen(ml as nat) - 1) as nat);
        }
    }
    let lh: u64 = bit_length128(mh) as u64;
    let sh: u64 = 125 - lh;
    proof {
        lemma_pow2_adds((lh - 1) as nat, sh as nat);
        lemma_pow2_adds(lh as nat, sh as nat);
        lemma_pow2_pos(sh as nat);
        lemma_mul_inequality(pow2((lh - 1) as nat) as int, mh as int, pow2(sh as nat) as int);
        lemma_mul_strict_inequality(mh as int, pow2(lh as nat) as int, pow2(sh as nat) as int);
        lemma_pow2_le(125, 127);
    }
    let big: u128 = mh * pow2_u128(sh);
    let e1: u64 = eh + lh;
    let e2: u64 = el + 125;
    let ghost hv: int = signed(hneg, mh * pow2(eh as nat));
    let ghost lv: int = signed(lneg, ml * pow2(el as nat));
    proof {
        assert(pow2(124) <= big < pow2(125));
        // the higher term times 2^125 is big * 2^e1
        lemma_pow2_adds(sh as nat, e1 as nat);
        lemma_pow2_adds(eh as nat, 125);
        lemma_mul_is_associative(mh as int, pow2(sh as nat) as int, pow2(e1 as nat) as int);
        lemma_mul_is_associative(mh as int, pow2(eh as nat) as int, pow2(125) as int);
        assert(mh * pow2(eh as nat) * pow2(125) == big * pow2(e1 as nat));
        lemma_pow2_adds(el as nat, 125);
        lemma_mul_is_associative(ml as int, pow2(el as nat) as int, pow2(125) as int);
        assert(ml * pow2(el as nat) * pow2(125) == ml * pow2(e2 as nat));
    }
    if e2 >= e1 {
        let d: u64 = e2 - e1;
        proof {
            lemma_pow2_pos(d as nat);
            lemma_pow2_adds(bitlen(ml as nat), d as nat);
            lemma_mul_strict_inequality(ml as int, pow2(bitlen(ml as nat)) as int, pow2(d as nat) as int);
            lemma_pow2_le(bitlen(ml as nat) + d as nat, 125);
        }
        let small: u128 = ml * pow2_u128(d);
        let neg: bool;
        let x: u128;
        if hneg == lneg {
            neg = hneg;
            x = big + small;
        } else if big >= small {
            neg = hneg;
            x = big - small;
        } else {
            neg = lneg;
            x = small - big;
        }
        proof {
            let p1 = pow2(e1 as nat);
            lemma_pow2_pos(e1 as nat);
            lemma_pow2_adds(d as nat, e1 as nat);
            lemma_mul_is_associative(ml as int, pow2(d as nat) as int, p1 as int);
            assert(ml * pow2(e2 as nat) == small * p1);
            let v = (hv + lv) * pow2(125);
            assert(v == (if neg {
                -(x * p1)
            } else {
                (x * p1) as int
            })) by (nonlinear_arith)
                requires
                    v == (hv + lv) * pow2(125),
                    hv == signed(hneg, mh * pow2(eh as nat)),
                    lv == signed(lneg, ml * pow2(el as nat)),
                    mh * pow2(eh as nat) * pow2(125) == big * p1,
                    ml * pow2(el as nat) * pow2(125) == small * p1,
                    hneg == lneg ==> neg == hneg && x == big + small,
                    hneg != lneg && big >= small ==> neg == hneg && x == big - small,
                    hneg != lneg && big < small ==> neg == lneg && x == small - big,
            ;
            if x > 0 {
                lemma_mul_strictly_positive(x as int, p1 as int);
                assert((hv + lv != 0) && ((hv + lv < 0) == neg)) by (nonlinear_arith)
                    requires
                        v == (hv + lv) * pow2(125),
                        pow2(125) > 0,
                        v == (if neg {
                            -(x * p1)
                        } else {
                            (x * p1) as int
                        }),
                        x * p1 > 0,
                ;
                assert((if hv + lv < 0 { -(hv + lv) } else { hv + lv }) * pow2(125) == x * p1)
                    by (nonlinear_arith)
                    requires
                        v == (hv + lv) * pow2(125),
                        v == (if neg {
                            -(x * p1)
                        } else {
                            (x * p1) as int
                        }),
                        (hv + lv < 0) == neg,
                ;
                lemma_shift125(hv + lv, (x * p1) as nat);
                lemma_rnd_shift(x as nat, -1199, e1 as nat);
            } else {
                lemma_mul_basics(p1 as int);
                lemma_pow2_pos(124);
                assert(hv + lv == 0) by (nonlinear_arith)
                    requires
                        v == (hv + lv) * pow2(125),
                        pow2(125) > 0,
                        v == 0,
                ;
                assert(hneg != lneg);
            }
        }
        if x == 0 {
            let z = assemble(false, 0, 0);
            proof {
                lemma_enc_parts(false, 0, 0);
                lemma_fields_determine(z, enc_parts(false, 0, 0));
            }
            return z;
        }
        round_pack(neg, x, e1 as i64 - 1199)
    } else {
        let t: u64 = e1 - e2;
        let small: u128;
        let frac: u128;
        if t >= 128 {
            small = 0;
            frac = ml;
        } else {
            let p = pow2_u128(t);
            proof {
                lemma_pow2_pos(t as nat);
            }
            small = ml / p;
            frac = ml % p;
        }
        proof {
            lemma_pow2_pos(t as nat);
            if t >= 128 {
                lemma_pow2_le(128, t as nat);
                vstd::arithmetic::div_mod::lemma_fundamental_div_mod_converse(
                    ml as int,
                    pow2(t as nat) as int,
                    0,
                    ml as int,
                );
            } else {
                vstd::arithmetic::div_mod::lemma_fundamental_div_mod(ml as int, pow2(t as nat) as int);
                vstd::arithmetic::div_mod::lemma_mod_bound(ml as int, pow2(t as nat) as int);
            }
            lemma_mul_is_commutative(pow2(t as nat) as int, small as int);
            lemma_mul_basics(pow2(t as nat) as int);
            assert(ml == small * pow2(t as nat) + frac);
            assert(frac < pow2(t as nat));
            lemma_pow2_le(1, t as nat);
            vstd::arithmetic::div_mod::lemma_div_is_ordered_by_denominator(ml as int, 2, pow2(t as nat) as int);
            lemma_pow2_unfold(106);
            assert(small < pow2(105));
            lemma_pow2_strictly_increases(105, 124);
            lemma_pow2_pos(105);
            assert(big > small + 1);
        }
        let x: u128;
        let sticky: bool = frac != 0;
        if hneg == lneg {
            x = big + small;
        } else if !sticky {
            x = big - small;
        } else {
            x = big - small - 1;
        }
        proof {
            lemma_pow2_strictly_increases(105, 125);
            lemma_pow2_unfold(126);
            lemma_pow2_unfold(127);
            assert(x < pow2(126));
        }
        let y: u128 = 2 * x + if sticky {
            1u128
        } else {
            0u128
        };
        proof {
            let pt = pow2(t as nat);
            let p2 = pow2(e2 as nat);
            let ff: nat = if hneg == lneg || !sticky {
                frac as nat
            } else {
                (pt - frac) as nat
            };
            assert(ff < pt);
            assert((ff > 0) == sticky);
            lemma_pow2_adds(t as nat, e2 as nat);
            lemma_mul_is_associative(big as int, pt as int, p2 as int);
            assert(big * pow2(e1 as nat) == big * pt * p2);
            let v = (hv + lv) * pow2(125);
            lemma_pow2_strictly_increases(106, 124);
            lemma_pow2_strictly_increases(105, 123);
            lemma_pow2_unfold(124);
            assert(x >= pow2(123));
            assert(big * pt > ml) by (nonlinear_arith)
                requires
                    big >= pow2(124),
                    pow2(124) > pow2(106),
                    pt >= 1,
                    ml < pow2(106),
            ;
            assert(v == (if hneg {
                -((x * pt + ff) * p2)
            } else {
                ((x * pt + ff) * p2) as int
            })) by (nonlinear_arith)
                requires
                    v == (hv + lv) * pow2(125),
                    hv == signed(hneg, mh * pow2(eh as nat)),
                    lv == signed(lneg, ml * pow2(el as nat)),
                    mh * pow2(eh as nat) * pow2(125) == big * pt * p2,
                    ml * pow2(el as nat) * pow2(125) == ml * p2,
                    ml == small * pt + frac,
                    hneg == lneg ==> x == big + small && ff == frac,
                    hneg != lneg && !sticky ==> x == big - small && ff == frac && frac == 0,
                    hneg != lneg && sticky ==> x == big - small - 1 && ff == pt - frac,
            ;
            lemma_pow2_pos(e2 as nat);
            assert(x * pt + ff > 0) by (nonlinear_arith)
                requires
                    x >= pow2(123),
                    pow2(123) > 0,
                    pt >= 1,
            ;
            lemma_mul_strictly_positive((x * pt + ff) as int, p2 as int);
            assert((hv + lv != 0) && ((hv + lv < 0) == hneg)) by (nonlinear_arith)
                requires
                    v == (hv + lv) * pow2(125),
                    pow2(125) > 0,
                    v == (if hneg {
                        -((x * pt + ff) * p2)
                    } else {
                        ((x * pt + ff) * p2) as int
                    }),
                    (x * pt + ff) * p2 > 0,
            ;
            assert((if hv + lv < 0 { -(hv + lv) } else { hv + lv }) * pow2(125) == (x * pt + ff) * p2)
                by (nonlinear_arith)
                requires
                    v == (hv + lv) * pow2(125),
                    v == (if hneg {
                        -((x * pt + ff) * p2)
                    } else {
                        ((x * pt + ff) * p2) as int
                    }),
                    (hv + lv < 0) == hneg,
            ;
            lemma_shift125(hv + lv, ((x * pt + ff) * p2) as nat);
            lemma_rnd_shift((x * pt + ff) as nat, -1199, e2 as nat);
            lemma_pow2_le(53, 123);
            lemma_bitlen_unique_ge(x as nat, 54);
            lemma_sticky(x as nat, ff, t as nat, e2 - 1199);
        }
        round_pack(hneg, y, e1 as i64 - 1200)
    }
}

/// Binary64 fused multiply-add: `a * b + c`, rounded once.
pub fn fma_enc(a: u64, b: u64, c: u64) -> (r: u64)
    ensures
        r == ffma(a, b, c),
{
    let (sa, ea, fa) = fields(a);
    let (sb, eb, fb) = fields(b);
    let (sc, ec, fc) = fields(c);
    let neg = sa != sb;
    if (ea == 0x7ff && fa != 0) || (eb == 0x7ff && fb != 0) || (ec == 0x7ff && fc != 0) {
        return NAN;
    }
    if ea == 0x7ff || eb == 0x7ff {
        if (ea == 0 && fa == 0) || (eb == 0 && fb == 0) {
            return NAN;
        }
        if ec == 0x7ff && sc != neg {
            return NAN;
        }
        let inf = assemble(neg, 0x7ff, 0);
        proof {
            lemma_enc_parts(neg, 0x7ff, 0);
            lemma_fields_determine(inf, infinity(neg));
        }
        return inf;
    }
    if ec == 0x7ff {
        return c;
    }
    fma_finite(a, b, c)
}

/// Fused multiply-add of finite numbers.
fn fma_finite(a: u64, b: u64, c: u64) -> (r: u64)
    requires
        enc_is_finite(a),
        enc_is_finite(b),
        enc_is_finite(c),
    ensures
        r == round_signed(
            scaled(a) * scaled(b) + scaled(c) * pow2(1074),
            -1074,
            (sign_bit(a) != sign_bit(b)) && sign_bit(c),
        ),
{
    let (sa, ma, ka) = unpack(a);
    let (sb, mb, kb) = unpack(b);
    let (sc, mc, kc) = unpack(c);
    let neg = sa != sb;
    proof {
        lemma2_to64();
        lemma2_to64_rest();
        lemma_pow2_big();
        lemma_mul_upper_bound(ma as int, pow2(53) as int, mb as int, pow2(53) as int);
        lemma_pow2_adds(53, 53);
        lemma_pow2_le(106, 127);
        lemma_pow2_le(53, 106);
        lemma_product(a, b);
        lemma_pow2_adds(kc as nat, 1074);
        lemma_mul_is_associative(mc as int, pow2(kc as nat) as int, pow2(1074) as int);
        assert(scaled(c) * pow2(1074) == signed(sc, mc * pow2((kc + 1074) as nat))) by (nonlinear_arith)
            requires
                scaled(c) == (if sc {
                    -units(c)
                } else {
                    units(c) as int
                }),
                units(c) * pow2(1074) == mc * pow2((kc + 1074) as nat),
        ;
    }
    proof {
        assert((ma as int) * (mb as int) < pow2(106)) by (nonlinear_arith)
            requires
                ma < 0x20_0000_0000_0000u64,
                mb < 0x20_0000_0000_0000u64,
                pow2(106) == pow2(53) * pow2(53),
                pow2(53) == 0x20_0000_0000_0000,
        ;
    }
    let p: u128 = (ma as u128) * (mb as u128);
    let pe: u64 = ka + kb;
    let ce: u64 = kc + 1074;
    proof {
        assert(scaled(a) * scaled(b) == signed(neg, p * pow2(pe as nat)));
        lemma_pow2_pos(pe as nat);
        lemma_pow2_pos(ce as nat);
    }
    if p == 0 {
        proof {
            lemma_mul_basics(pow2(pe as nat) as int);
        }
        if mc == 0 {
            let z = assemble(neg && sc, 0, 0);
            proof {
                lemma_mul_basics(pow2(ce as nat) as int);
                lemma_enc_parts(neg && sc, 0, 0);
                lemma_fields_determine(z, enc_parts(neg && sc, 0, 0));
            }
            return z;
        }
        proof {
            lemma_mul_strictly_positive(mc as int, pow2(ce as nat) as int);
            lemma_rnd_shift(units(c), -1074, 1074);
            lemma_rnd_exact(c);
            lemma_enc_of_units(c);
            lemma_pow2_adds(kc as nat, 1074);
            lemma_mul_is_associative(mc as int, pow2(kc as nat) as int, pow2(1074) as int);
        }
        return c;
    }
    if mc == 0 {
        proof {
            lemma_mul_basics(pow2(ce as nat) as int);
            lemma_mul_strictly_positive(p as int, pow2(pe as nat) as int);
            lemma_rnd_shift(p as nat, -1074, pe as nat);
        }
        return round_pack(neg, p, pe as i64 - 1074);
    }
    let lp = bit_length128(p) as u64;
    let lc = bit_length128(mc as u128) as u64;
    if lp + pe >= lc + ce {
        round_sum(neg, p, pe, sc, mc as u128, ce)
    } else {
        round_sum(sc, mc as u128, ce, neg, p, pe)
    }
}

// ---------------------------------------------------------------------------
// Division

/// The binary64 magnitude nearest to the quotient `n / d` (in units), ties
/// to even.  The quotient is read to 2300 bits below the unit, with a
/// sticky bit for the rest; since no binary64 keeps a bit below the unit,
/// these decide the rounding (see `lemma_sticky`).
pub open spec fn rnd_ratio(n: nat, d: nat) -> nat {
    let x = (n * pow2(2300)) / d;
    let s: nat = if (n * pow2(2300)) % d != 0 {
        1
    } else {
        0
    };
    rnd(2 * x + s, -2301)
}

/// The binary64 number of sign `neg` nearest to `n / d` (in units).
pub open spec fn round_ratio(neg: bool, n: nat, d: nat) -> u64 {
    if overflows(rnd_ratio(n, d)) {
        infinity(neg)
    } else {
        enc_of(neg, rnd_ratio(n, d))
    }
}

/// The binary64 quotient `a / b`.
pub open spec fn fdiv(a: u64, b: u64) -> u64 {
    let neg = sign_bit(a) != sign_bit(b);
    if enc_is_nan(a) || enc_is_nan(b) {
        NAN
    } else if enc_is_infinite(a) {
        if enc_is_infinite(b) {
            NAN
        } else {
            infinity(neg)
        }
    } else if enc_is_infinite(b) {
        enc_parts(neg, 0, 0)
    } else if enc_is_zero(b) {
        if enc_is_zero(a) {
            NAN
        } else {
            infinity(neg)
        }
    } else if enc_is_zero(a) {
        enc_parts(neg, 0, 0)
    } else {
        round_ratio(neg, units(a) * pow2(1074), units(b))
    }
}

/// Cancelling a common factor in a division.
proof fn lemma_div_cancel(a: nat, b: nat, c: nat)
    requires
        b > 0,
        c > 0,
    ensures
        (a * c) / (b * c) == a / b,
        (a * c) % (b * c) == (a % b) * c,
{
    let q = a / b;
    let r = a % b;
    lemma_fundamental_div_mod(a as int, b as int);
    lemma_mod_bound(a as int, b as int);
    assert(a * c == q * (b * c) + r * c && r * c < b * c) by (nonlinear_arith)
        requires
            a == b * q + r,
            r < b,
            c > 0,
    ;
    lemma_mul_strictly_positive(b as int, c as int);
    lemma_fundamental_div_mod_converse((a * c) as int, (b * c) as int, q as int, (r * c) as int);
}

/// The quotient read from `x = num / mb` and the sticky bit of its
/// remainder rounds as the quotient of the magnitudes.
proof fn lemma_ratio(ma: nat, ka: nat, mb: nat, kb: nat, p: nat, x: nat, rem: nat)
    requires
        ma > 0,
        mb > 0,
        ka < 0x7ff,
        kb < 0x7ff,
        p <= 127,
        ma * pow2(p) == mb * x + rem,
        rem < mb,
        bitlen(x) >= 54,
    ensures
        rnd_ratio(ma * pow2(ka) * pow2(1074), mb * pow2(kb)) == rnd(
            2 * x + (if rem != 0 {
                1nat
            } else {
                0nat
            }),
            ka + 1073 - kb - p,
        ),
{
    let big_k: nat = 2300;
    let e = (ka + 1074 + big_k - kb) as nat;
    let t = (e - p) as nat;
    let n = ma * pow2(ka) * pow2(1074);
    let d = mb * pow2(kb);
    let pkb = pow2(kb);
    lemma_pow2_pos(kb);
    lemma_pow2_pos(t);
    // n * 2^K = (ma * 2^e) * 2^kb
    lemma_pow2_adds(ka, 1074);
    lemma_pow2_adds(ka + 1074, big_k);
    lemma_pow2_adds(e, kb);
    lemma_mul_is_associative(ma as int, pow2(ka) as int, pow2(1074) as int);
    lemma_mul_is_associative(ma as int, pow2(ka + 1074) as int, pow2(big_k) as int);
    lemma_mul_is_associative(ma as int, pow2(e) as int, pkb as int);
    assert(n * pow2(big_k) == (ma * pow2(e)) * pkb);
    lemma_div_cancel(ma * pow2(e), mb, pkb);
    // ma * 2^e = mb * (x * 2^t) + rem * 2^t
    lemma_pow2_adds(p, t);
    lemma_mul_is_associative(ma as int, pow2(p) as int, pow2(t) as int);
    let q2 = (rem * pow2(t)) / mb;
    let r2 = (rem * pow2(t)) % mb;
    lemma_fundamental_div_mod((rem * pow2(t)) as int, mb as int);
    lemma_mod_bound((rem * pow2(t)) as int, mb as int);
    assert(ma * pow2(e) == mb * (x * pow2(t) + q2) + r2) by (nonlinear_arith)
        requires
            ma * pow2(e) == (ma * pow2(p)) * pow2(t),
            ma * pow2(p) == mb * x + rem,
            rem * pow2(t) == mb * q2 + r2,
    ;
    lemma_fundamental_div_mod_converse((ma * pow2(e)) as int, mb as int, (x * pow2(t) + q2) as int, r2 as int);
    lemma_mul_strictly_positive(r2 as int, pkb as int);
    lemma_mul_basics(pkb as int);
    // the sticky reading
    let s2: nat = if r2 != 0 {
        1
    } else {
        0
    };
    let f = 2 * q2 + s2;
    assert(q2 < pow2(t)) by {
        lemma_mul_strict_inequality(rem as int, mb as int, pow2(t) as int);
        lemma_mul_is_commutative(mb as int, pow2(t) as int);
        lemma_multiply_divide_lt((rem * pow2(t)) as int, mb as int, pow2(t) as int);
    }
    lemma_pow2_unfold(t + 1);
    assert(f < pow2(t + 1));
    assert((f > 0) == (rem != 0)) by {
        if rem != 0 {
            lemma_mul_strictly_positive(rem as int, pow2(t) as int);
            if q2 == 0 {
                lemma_mul_basics(mb as int);
            }
        } else {
            lemma_mul_basics(pow2(t) as int);
            lemma_small_mod(0, mb);
            lemma_div_of0(mb as int);
        }
    }
    assert(2 * (x * pow2(t) + q2) + s2 == x * pow2(t + 1) + f) by (nonlinear_arith)
        requires
            pow2(t + 1) == 2 * pow2(t),
            f == 2 * q2 + s2,
    ;
    lemma_sticky(x, f, t + 1, -2301);
}

/// Binary64 division.
pub fn div_enc(a: u64, b: u64) -> (r: u64)
    ensures
        r == fdiv(a, b),
{
    let (sa, ea, fa) = fields(a);
    let (sb, eb, fb) = fields(b);
    let neg = sa != sb;
    if (ea == 0x7ff && fa != 0) || (eb == 0x7ff && fb != 0) {
        return NAN;
    }
    let a_zero = ea == 0 && fa == 0;
    let b_zero = eb == 0 && fb == 0;
    if (ea == 0x7ff && eb == 0x7ff) || (a_zero && b_zero) {
        return NAN;
    }
    if ea == 0x7ff || b_zero {
        let inf = assemble(neg, 0x7ff, 0);
        proof {
            lemma_enc_parts(neg, 0x7ff, 0);
            lemma_fields_determine(inf, infinity(neg));
        }
        return inf;
    }
    if eb == 0x7ff || a_zero {
        let z = assemble(neg, 0, 0);
        proof {
            lemma_enc_parts(neg, 0, 0);
            lemma_fields_determine(z, enc_parts(neg, 0, 0));
        }
        return z;
    }
    let (_sa, ma, ka) = unpack(a);
    let (_sb, mb, kb) = unpack(b);
    proof {
        lemma2_to64();
        lemma2_to64_rest();
        lemma_pow2_big();
        lemma_units_bounds(a);
        lemma_units_bounds(b);
        assert(ma > 0 && mb > 0) by {
            if ma == 0 {
                lemma_mul_basics(pow2(ka as nat) as int);
            }
            if mb == 0 {
                lemma_mul_basics(pow2(kb as nat) as int);
            }
        }
        lemma_bitlen_bounds(ma as nat);
        if bitlen(ma as nat) > 53 {
            lemma_pow2_le(53, (bitlen(ma as nat) - 1) as nat);
        }
    }
    let la = bit_length128(ma as u128) as u64;
    let p: u64 = 127 - la;
    proof {
        lemma_pow2_adds(la as nat, p as nat);
        lemma_pow2_adds((la - 1) as nat, p as nat);
        lemma_pow2_pos(p as nat);
        lemma_mul_strict_inequality(ma as int, pow2(la as nat) as int, pow2(p as nat) as int);
        lemma_mul_inequality(pow2((la - 1) as nat) as int, ma as int, pow2(p as nat) as int);
        lemma_pow2_le(127, 127);
    }
    let num: u128 = (ma as u128) * pow2_u128(p);
    let x: u128 = num / (mb as u128);
    let rem: u128 = num % (mb as u128);
    proof {
        lemma_fundamental_div_mod(num as int, mb as int);
        lemma_mod_bound(num as int, mb as int);
        lemma_div_is_ordered_by_denominator(num as int, 1, mb as int);
        // x > 2^126 / 2^53
        lemma_pow2_adds(73, 53);
        assert(x >= pow2(73)) by {
            if x < pow2(73) {
                lemma_mul_inequality((x + 1) as int, pow2(73) as int, mb as int);
                lemma_mul_strict_inequality(mb as int, pow2(53) as int, pow2(73) as int);
                lemma_mul_is_commutative(mb as int, (x + 1) as int);
                lemma_mul_is_commutative(mb as int, pow2(73) as int);
                lemma_mul_is_distributive_add(mb as int, x as int, 1);
            }
        }
        lemma_pow2_le(53, 73);
        lemma_bitlen_unique_ge(x as nat, 54);
        lemma_ratio(ma as nat, ka as nat, mb as nat, kb as nat, p as nat, x as nat, rem as nat);
        lemma_pow2_unfold(127);
        lemma_pow2_unfold(128);
    }
    let y: u128 = 2 * x + if rem != 0 {
        1u128
    } else {
        0u128
    };
    round_pack(neg, y, ka as i64 + 1073 - kb as i64 - p as i64)
}

// ---------------------------------------------------------------------------
// Square root

/// `x` is the integer square root of `n`.
pub open spec fn is_isqrt(x: nat, n: nat) -> bool {
    x * x <= n && n < (x + 1) * (x + 1)
}

/// The integer square root of `n`: the largest `x` with `x * x <= n`.
pub open spec fn isqrt(n: nat) -> nat {
    choose|x: nat| is_isqrt(x, n)
}

/// The binary64 magnitude nearest to the square root of `n` (in units
/// squared), ties to even: the root is read to 2300 bits below the unit,
/// with a sticky bit for the rest.
pub open spec fn rnd_sqrt(n: nat) -> nat {
    let m = n * pow2(4600);
    let x = isqrt(m);
    let s: nat = if x * x != m {
        1
    } else {
        0
    };
    rnd(2 * x + s, -2301)
}

/// The binary64 square root of `a`; the root of -0 is -0.
pub open spec fn fsqrt(a: u64) -> u64 {
    if enc_is_nan(a) {
        NAN
    } else if enc_is_zero(a) {
        a
    } else if sign_bit(a) {
        NAN
    } else if enc_is_infinite(a) {
        a
    } else if overflows(rnd_sqrt(units(a) * pow2(1074))) {
        infinity(false)
    } else {
        enc_of(false, rnd_sqrt(units(a) * pow2(1074)))
    }
}

/// Squares grow with their roots.
proof fn lemma_square_lt(a: nat, b: nat)
    requires
        a < b,
    ensures
        a * a < b * b,
{
    assert(a * a < b * b) by (nonlinear_arith)
        requires
            a < b,
    ;
}

/// The integer square root is unique, and so is `isqrt`.
pub proof fn lemma_isqrt(x: nat, n: nat)
    requires
        is_isqrt(x, n),
    ensures
        isqrt(n) == x,
{
    let y = isqrt(n);
    assert(is_isqrt(y, n));
    if y < x {
        lemma_square_lt(y + 1, x + 1);
        if y + 1 < x {
            lemma_square_lt(y + 1, x);
        }
    }
    if x < y {
        if x + 1 < y {
            lemma_square_lt(x + 1, y);
        }
    }
}

/// Every number has an integer square root.
pub proof fn lemma_isqrt_exists(n: nat)
    ensures
        is_isqrt(isqrt(n), n),
    decreases n,
{
    if n == 0 {
        assert(0nat * 0nat == 0 && (0nat + 1) * (0nat + 1) == 1) by (nonlinear_arith);
        assert(is_isqrt(0, 0));
    } else {
        lemma_isqrt_exists((n - 1) as nat);
        let x = isqrt((n - 1) as nat);
        if n < (x + 1) * (x + 1) {
            assert(is_isqrt(x, n));
        } else {
            assert((x + 1) * (x + 1) <= n < (x + 2) * (x + 2)) by (nonlinear_arith)
                requires
                    n - 1 < (x + 1) * (x + 1),
                    n >= (x + 1) * (x + 1),
            ;
            assert(is_isqrt(x + 1, n));
        }
    }
}

/// The root of `n * 4^t` read against the root `x` of `n`: it is
/// `x * 2^t + f` with `f < 2^t`, and it is exact, with `f == 0`, only where
/// `x` is exact.
proof fn lemma_isqrt_scale(x: nat, n: nat, t: nat)
    requires
        is_isqrt(x, n),
    ensures
        x * pow2(t) <= isqrt(n * pow2(2 * t)) < (x + 1) * pow2(t),
        (isqrt(n * pow2(2 * t)) == x * pow2(t) && isqrt(n * pow2(2 * t)) * isqrt(n * pow2(2 * t))
            == n * pow2(2 * t)) == (x * x == n),
{
    let big = n * pow2(2 * t);
    let xk = isqrt(big);
    lemma_isqrt_exists(big);
    let p = pow2(t);
    lemma_pow2_adds(t, t);
    assert(pow2(2 * t) == p * p);
    lemma_pow2_pos(t);
    assert((x * p) * (x * p) == (x * x) * (p * p) && ((x + 1) * p) * ((x + 1) * p) == ((x + 1) * (x
        + 1)) * (p * p)) by (nonlinear_arith);
    lemma_mul_inequality((x * x) as int, n as int, (p * p) as int);
    lemma_mul_strictly_positive(p as int, p as int);
    lemma_mul_strict_inequality(n as int, ((x + 1) * (x + 1)) as int, (p * p) as int);
    if xk < x * p {
        lemma_square_lt(xk + 1, x * p);
    }
    if xk >= (x + 1) * p {
        if xk > (x + 1) * p {
            lemma_square_lt((x + 1) * p, xk);
        }
    }
    if x * x == n {
        lemma_square_lt(x * p, x * p + 1);
        assert(big == n * (p * p));
        lemma_isqrt(x * p, big);
    } else {
        if xk == x * p && xk * xk == big {
            assert(x * x == n) by (nonlinear_arith)
                requires
                    (x * p) * (x * p) == (x * x) * (p * p),
                    xk == x * p,
                    xk * xk == big,
                    big == n * (p * p),
                    p * p > 0,
            ;
        }
    }
}

/// The integer square root of `n`.
fn isqrt_u128(n: u128) -> (r: u64)
    ensures
        is_isqrt(r as nat, n as nat),
{
    let mut lo: u128 = 0;
    let mut hi: u128 = 0x1_0000_0000_0000_0000u128;
    while hi - lo > 1
        invariant
            lo < hi <= 0x1_0000_0000_0000_0000u128,
            lo * lo <= n,
            n < hi * hi,
        decreases hi - lo,
    {
        let mid: u128 = lo + (hi - lo) / 2;
        assert(mid * mid < 0x1_0000_0000_0000_0000_0000_0000_0000_0000) by (nonlinear_arith)
            requires
                mid < 0x1_0000_0000_0000_0000u128,
        ;
        if mid * mid <= n {
            lo = mid;
        } else {
            hi = mid;
        }
    }
    lo as u64
}

/// The square root read from the integer root `x` of `ma * 2^c` and its
/// exactness rounds as the root of `ma * 2^(2w + c)`.
proof fn lemma_sqrt_read(ma: nat, c: nat, w: nat, x: nat)
    requires
        is_isqrt(x, ma * pow2(c)),
        bitlen(x) >= 54,
    ensures
        rnd_sqrt(ma * pow2(c) * pow2(2 * w)) == rnd(
            2 * x + (if x * x != ma * pow2(c) {
                1nat
            } else {
                0nat
            }),
            w - 1,
        ),
{
    let m = ma * pow2(c);
    let t = w + 2300;
    lemma_pow2_adds(2 * w, 4600);
    lemma_mul_is_associative(m as int, pow2(2 * w) as int, pow2(4600) as int);
    assert(2 * w + 4600 == 2 * t);
    let xk = isqrt(m * pow2(2 * t));
    lemma_isqrt_scale(x, m, t);
    let p = pow2(t);
    lemma_pow2_pos(t);
    let f = (xk - x * p) as nat;
    assert(f < p) by (nonlinear_arith)
        requires
            xk < (x + 1) * p,
            f == xk - x * p,
    ;
    let sk: nat = if xk * xk != m * pow2(2 * t) {
        1
    } else {
        0
    };
    let ff = 2 * f + sk;
    lemma_pow2_unfold(t + 1);
    assert(ff < pow2(t + 1));
    assert(2 * xk + sk == x * pow2(t + 1) + ff) by (nonlinear_arith)
        requires
            pow2(t + 1) == 2 * p,
            xk == x * p + f,
            ff == 2 * f + sk,
    ;
    assert((ff > 0) == (x * x != m));
    lemma_sticky(x, ff, t + 1, -2301);
}

/// Binary64 square root.
pub fn sqrt_enc(a: u64) -> (r: u64)
    ensures
        r == fsqrt(a),
{
    let (sa, ea, fa) = fields(a);
    if ea == 0x7ff && fa != 0 {
        return NAN;
    }
    if ea == 0 && fa == 0 {
        return a;
    }
    if sa {
        return NAN;
    }
    if ea == 0x7ff {
        return a;
    }
    let (_sa, ma, ka) = unpack(a);
    proof {
        lemma2_to64();
        lemma2_to64_rest();
        lemma_pow2_big();
        lemma_units_bounds(a);
        assert(ma > 0) by {
            if ma == 0 {
                lemma_mul_basics(pow2(ka as nat) as int);
            }
        }
        lemma_bitlen_bounds(ma as nat);
        if bitlen(ma as nat) > 53 {
            lemma_pow2_le(53, (bitlen(ma as nat) - 1) as nat);
        }
    }
    let la = bit_length128(ma as u128) as u64;
    let e: u64 = ka + 1074;
    let c0: u64 = 126 - la;
    let c: u64 = if (e - c0) % 2 == 0 {
        c0
    } else {
        c0 + 1
    };
    let w: u64 = (e - c) / 2;
    proof {
        lemma_pow2_adds(la as nat, c as nat);
        lemma_pow2_adds((la - 1) as nat, c as nat);
        lemma_pow2_pos(c as nat);
        lemma_mul_strict_inequality(ma as int, pow2(la as nat) as int, pow2(c as nat) as int);
        lemma_mul_inequality(pow2((la - 1) as nat) as int, ma as int, pow2(c as nat) as int);
        lemma_pow2_le(la as nat + c as nat, 127);
        lemma_pow2_le(125, (la - 1) as nat + c as nat);
    }
    let m: u128 = (ma as u128) * pow2_u128(c);
    let x = isqrt_u128(m);
    let exact: bool = (x as u128) * (x as u128) == m;
    proof {
        // x >= 2^62 since m >= 2^125
        assert(x >= 0x4000_0000_0000_0000u64) by {
            if x < 0x4000_0000_0000_0000u64 {
                assert((x + 1) * (x + 1) <= 0x4000_0000_0000_0000u64 * 0x4000_0000_0000_0000u64)
                    by (nonlinear_arith)
                    requires
                        x < 0x4000_0000_0000_0000u64,
                ;
                lemma_pow2_adds(62, 63);
                assert(pow2(125) == 0x2000_0000_0000_0000_0000_0000_0000_0000);
            }
        }
        lemma_pow2_le(53, 62);
        lemma_bitlen_unique_ge(x as nat, 54);
        lemma_sqrt_read(ma as nat, c as nat, w as nat, x as nat);
        // units(a) * 2^1074 = ma * 2^c * 2^(2w)
        lemma_pow2_adds(ka as nat, 1074);
        lemma_pow2_adds(c as nat, 2 * w as nat);
        lemma_mul_is_associative(ma as int, pow2(ka as nat) as int, pow2(1074) as int);
        lemma_mul_is_associative(ma as int, pow2(c as nat) as int, pow2(2 * w as nat) as int);
        assert(c + 2 * w == e);
    }
    let y: u128 = 2 * (x as u128) + if exact {
        0u128
    } else {
        1u128
    };
    round_pack(false, y, w as i64 - 1)
}

// ---------------------------------------------------------------------------
// The values of results

/// The sign of `v` applied to the magnitude `m`.
pub open spec fn with_sign(v: int, m: nat) -> int {
    if v < 0 {
        -m
    } else {
        m as int
    }
}

/// The magnitude of `v`.
pub open spec fn magnitude(v: int) -> nat {
    (if v < 0 {
        -v
    } else {
        v
    }) as nat
}

/// The value of a rounded result: where the rounded magnitude of the exact
/// value `v` does not overflow, the result is finite, and its value is that
/// magnitude with the sign of `v`.
pub proof fn lemma_round_signed_value(v: int, zneg: bool)
    ensures
        !overflows(rnd(magnitude(v), 0)) ==> enc_is_finite(round_signed(v, 0, zneg)) && scaled(
            round_signed(v, 0, zneg),
        ) == with_sign(v, rnd(magnitude(v), 0)),
        overflows(rnd(magnitude(v), 0)) ==> enc_is_infinite(round_signed(v, 0, zneg)),
{
    if v == 0 {
        lemma_enc_parts(zneg, 0, 0);
        lemma_rnd_zero(0);
        lemma_pow2_pos(2098);
        lemma2_to64();
        lemma_mul_basics(pow2(0) as int);
    } else {
        lemma_round_enc_value(v < 0, magnitude(v), 0);
    }
}

/// A value whose magnitude is a binary64 magnitude is the value of its
/// own rounding.
pub proof fn lemma_round_exact(v: int, zneg: bool)
    requires
        representable(magnitude(v)),
        !overflows(magnitude(v)),
    ensures
        enc_is_finite(round_signed(v, 0, zneg)),
        scaled(round_signed(v, 0, zneg)) == v,
{
    lemma_round_signed_value(v, zneg);
}

/// The negation of a finite number is finite, of the opposite value.
pub proof fn lemma_fneg_value(b: u64)
    requires
        enc_is_finite(b),
    ensures
        enc_is_finite(fneg(b)),
        units(fneg(b)) == units(b),
        scaled(fneg(b)) == -scaled(b),
{
    lemma_fneg(b);
}

/// Rounding at the exponent -1074 a value scaled by 2^1074 is rounding the
/// value itself.
pub proof fn lemma_round_signed_shift(w: int, zneg: bool)
    ensures
        round_signed(w * pow2(1074), -1074, zneg) == round_signed(w, 0, zneg),
{
    lemma_pow2_pos(1074);
    lemma_rnd_shift(magnitude(w), -1074, 1074);
    if w == 0 {
        lemma_mul_basics(pow2(1074) as int);
    } else {
        if w > 0 {
            lemma_mul_strictly_positive(w, pow2(1074) as int);
        } else {
            lemma_mul_strictly_positive(-w, pow2(1074) as int);
            lemma_mul_unary_negation(-w, pow2(1074) as int);
        }
    }
}

// ---------------------------------------------------------------------------
// Rounding to the nearest integer, and to `i32`

/// `v / 2^1074` rounded to the nearest integer, ties away from zero, times
/// 2^1074.
pub open spec fn round_away_units(v: int) -> int {
    with_sign(v, ((magnitude(v) + pow2(1073)) / pow2(1074)) * pow2(1074))
}

/// The integer nearest to `b`, ties away from zero; a zero result keeps the
/// sign of `b`.
pub open spec fn fround(b: u64) -> u64 {
    if enc_is_nan(b) {
        NAN
    } else if enc_is_infinite(b) {
        b
    } else {
        round_signed(round_away_units(scaled(b)), 0, sign_bit(b))
    }
}

/// Whether the fraction cut off the integer part of `b` is at least one
/// half.
fn frac_half(b: u64) -> (r: bool)
    requires
        enc_is_finite(b),
        unit_shift(b) < 1074,
    ensures
        r == (units(b) % pow2(1074) >= pow2(1073)),
{
    let (_s, sig, k) = unpack(b);
    let sh: u64 = 1074 - k;
    proof {
        lemma_div_mod_shifted(sig as nat, k as nat, 1074);
        lemma_pow2_pos(k as nat);
        lemma_pow2_pos(sh as nat);
        lemma2_to64();
        lemma2_to64_rest();
        lemma_pow2_adds((sh - 1) as nat, k as nat);
        let md = sig as nat % pow2(sh as nat);
        assert((md * pow2(k as nat) >= pow2((sh - 1) as nat) * pow2(k as nat)) == (md >= pow2(
            (sh - 1) as nat,
        ))) by {
            if md >= pow2((sh - 1) as nat) {
                lemma_mul_inequality(pow2((sh - 1) as nat) as int, md as int, pow2(k as nat) as int);
            } else {
                lemma_mul_strict_inequality(md as int, pow2((sh - 1) as nat) as int, pow2(k as nat) as int);
            }
        }
    }
    if sh >= 64 {
        proof {
            lemma_pow2_le(53, (sh - 1) as nat);
            lemma_pow2_le(53, sh as nat);
            lemma_fundamental_div_mod_converse(sig as int, pow2(sh as nat) as int, 0, sig as int);
        }
        false
    } else {
        proof {
            vstd::bits::lemma_u64_pow2_no_overflow(sh as nat);
            vstd::bits::lemma_u64_shl_is_mul(1, sh);
            lemma_pow2_unfold(sh as nat);
        }
        let p: u64 = 1u64 << sh;
        sig % p >= p / 2
    }
}

/// Rounds to the nearest integer, ties away from zero.
pub fn round_away_enc(b: u64) -> (r: u64)
    ensures
        r == fround(b),
{
    let (_s, e, f) = fields(b);
    if e == 0x7ff {
        return if f != 0 {
            NAN
        } else {
            b
        };
    }
    let (_s, _m, k) = unpack(b);
    if k >= 1074 {
        proof {
            lemma_is_integer(b);
            let u = units(b);
            let p = pow2(1074);
            lemma_pow2_pos(1074);
            lemma_pow2_unfold(1074);
            let q = u / p;
            lemma_fundamental_div_mod(u as int, p as int);
            assert(u % p == 0) by {
                let c = significand(b) * pow2((k - 1074) as nat);
                lemma_pow2_adds((k - 1074) as nat, 1074);
                lemma_mul_is_associative(significand(b) as int, pow2((k - 1074) as nat) as int, p as int);
                lemma_mod_multiples_basic(c as int, p as int);
            }
            lemma_fundamental_div_mod_converse((u + pow2(1073)) as int, p as int, q as int, pow2(1073) as int);
            lemma_mul_is_commutative(q as int, p as int);
        }
        return b;
    }
    let (neg, t, _frac) = int_part(b);
    let half = frac_half(b);
    let m: u64 = if half {
        t + 1
    } else {
        t
    };
    proof {
        let p = pow2(1074);
        let u = units(b);
        lemma_pow2_pos(1074);
        lemma_pow2_unfold(1074);
        lemma_fundamental_div_mod(u as int, p as int);
        lemma_mod_bound(u as int, p as int);
        let rem = u % p;
        if half {
            assert(u + pow2(1073) == (t + 1) * p + (rem - pow2(1073))) by (nonlinear_arith)
                requires
                    u == p * t + rem,
                    p == 2 * pow2(1073),
            ;
            lemma_fundamental_div_mod_converse(
                (u + pow2(1073)) as int,
                p as int,
                (t + 1) as int,
                (rem - pow2(1073)) as int,
            );
        } else {
            assert(u + pow2(1073) == t * p + (rem + pow2(1073))) by (nonlinear_arith)
                requires
                    u == p * t + rem,
            ;
            lemma_fundamental_div_mod_converse((u + pow2(1073)) as int, p as int, t as int, (rem
                + pow2(1073)) as int);
        }
        lemma_mul_is_commutative(t as int, p as int);
        lemma_mul_unary_negation(m as int, p as int);
        lemma_int_result(round_away_units(scaled(b)), m as nat, neg, sign_bit(b));
    }
    round_pack(neg, m as u128, 1074)
}

/// `b` converted to `i32` as `as` converts: rounded toward zero, the
/// infinities and out-of-range values saturated, NaN to zero.
pub open spec fn to_i32_spec(b: u64) -> int {
    if enc_is_nan(b) {
        0
    } else if enc_is_infinite(b) {
        if sign_bit(b) {
            i32::MIN as int
        } else {
            i32::MAX as int
        }
    } else {
        let t = trunc_units(scaled(b)) / (pow2(1074) as int);
        if t < i32::MIN {
            i32::MIN as int
        } else if t > i32::MAX {
            i32::MAX as int
        } else {
            t
        }
    }
}

/// Converts to `i32` as `as` converts.
pub fn to_i32(b: u64) -> (r: i32)
    ensures
        r == to_i32_spec(b),
{
    let (s, e, f) = fields(b);
    if e == 0x7ff {
        return if f != 0 {
            0
        } else if s {
            i32::MIN
        } else {
            i32::MAX
        };
    }
    let (_s, _m, k) = unpack(b);
    let ghost p = pow2(1074);
    proof {
        lemma_pow2_pos(1074);
        lemma2_to64();
        lemma2_to64_rest();
    }
    if k >= 1074 {
        proof {
            lemma_is_integer(b);
            lemma_units_bounds(b);
            // |b| >= 2^52
            lemma_pow2_adds(52, 1074);
            lemma_pow2_le(1074, k as nat);
            lemma_mul_inequality(two52() as int, significand(b) as int, pow2(1074) as int);
            lemma_mul_inequality(pow2(1074) as int, pow2(k as nat) as int, significand(b) as int);
            lemma_mul_is_commutative(two52() as int, pow2(1074) as int);
            lemma_mul_is_commutative(significand(b) as int, pow2(1074) as int);
            lemma_mul_is_commutative(significand(b) as int, pow2(k as nat) as int);
            assert(units(b) >= two52() * p);
            lemma_div_by_multiple(two52() as int, p as int);
            lemma_div_is_ordered((two52() * p) as int, units(b) as int, p as int);
            lemma_fundamental_div_mod(scaled(b), p as int);
            if s {
                lemma_div_neg(units(b), p);
            }
        }
        return if s {
            i32::MIN
        } else {
            i32::MAX
        };
    }
    let (neg, t, _frac) = int_part(b);
    proof {
        if neg {
            lemma_div_neg(units(b), p);
            lemma_mul_unary_negation(-((units(b) / p) as int), p as int);
            let q = units(b) / p;
            lemma_fundamental_div_mod_converse(-(q * p), p as int, -(q as int), 0);
            lemma_mul_unary_negation(q as int, p as int);
        } else {
            lemma_fundamental_div_mod_converse((t * p) as int, p as int, t as int, 0);
        }
    }
    if neg {
        if t > 0x8000_0000 {
            i32::MIN
        } else {
            (0 - (t as i64)) as i32
        }
    } else {
        if t > 0x7fff_ffff {
            i32::MAX
        } else {
            t as i32
        }
    }
}

/// The absolute value of `b`: its sign bit cleared.
pub open spec fn fabs(b: u64) -> u64 {
    b & 0x7fff_ffff_ffff_ffffu64
}

/// The fields of the absolute value.
pub proof fn lemma_fabs(b: u64)
    ensures
        !sign_bit(fabs(b)),
        exp_field(fabs(b)) == exp_field(b),
        frac_field(fabs(b)) == frac_field(b),
{
    let r = fabs(b);
    assert(!(r >= 0x8000_0000_0000_0000u64) && (r / 0x10_0000_0000_0000) % 0x800 == (b
        / 0x10_0000_0000_0000) % 0x800 && r % 0x10_0000_0000_0000 == b % 0x10_0000_0000_0000)
        by (bit_vector)
        requires
            r == b & 0x7fff_ffff_ffff_ffffu64,
    ;
}

/// The absolute value: the sign bit cleared.
pub fn abs_enc(b: u64) -> (r: u64)
    ensures
        r == fabs(b),
{
    b & 0x7fff_ffff_ffff_ffffu64
}

// ---------------------------------------------------------------------------
// Scaling by a power of two

/// `b * 2^n`, rounded once (`ldexp`); NaN gives NaN, and infinities and
/// zeros are kept.
pub open spec fn fldexp(b: u64, n: int) -> u64 {
    if enc_is_nan(b) {
        NAN
    } else if enc_is_infinite(b) || enc_is_zero(b) {
        b
    } else {
        round_enc(sign_bit(b), units(b), n)
    }
}

/// Scaling far up overflows, and scaling far down rounds to zero, whatever
/// the magnitude below 2^53 at the unit shift `k`.
proof fn lemma_ldexp_clamp(sig: nat, k: nat, n: int)
    requires
        0 < sig < pow2(53),
        k <= 2045,
    ensures
        n > 3000 ==> overflows(rnd(sig * pow2(k), n)) && overflows(rnd(sig * pow2(k), 3000)),
        n < -3000 ==> rnd(sig * pow2(k), n) == 0 && rnd(sig * pow2(k), -3000) == 0,
{
    lemma2_to64();
    lemma2_to64_rest();
    lemma_rnd_shift(sig, n, k);
    lemma_rnd_shift(sig, 3000, k);
    lemma_rnd_shift(sig, -3000, k);
    if n > 3000 {
        lemma_rnd_big(sig, n + k);
        lemma_rnd_big(sig, (3000 + k) as int);
    }
    if n < -3000 {
        lemma_rnd_tiny(sig, n + k);
        lemma_rnd_tiny(sig, -3000 + k);
    }
}

/// A nonzero magnitude at an exponent of at least 2098 overflows.
proof fn lemma_rnd_big(m: nat, e: int)
    requires
        m > 0,
        e >= 2098,
    ensures
        overflows(rnd(m, e)),
{
    lemma2_to64();
    lemma2_to64_rest();
    let g = grid(m, e);
    lemma_bitlen_bounds(m);
    if e <= g {
        let sh = (g - e) as nat;
        lemma_pow2_pos(sh);
        lemma_rne_shr_bounds(m, sh);
        lemma_div_pow2_bounds_pub(m, bitlen(m), sh);
        lemma_pow2_adds(52, g);
        lemma_pow2_le(2098, 52 + g);
        lemma_mul_inequality(pow2(52) as int, rne_shr(m, sh) as int, pow2(g) as int);
    } else {
        lemma_pow2_le(2098, e as nat);
        lemma_mul_inequality(1, m as int, pow2(e as nat) as int);
    }
}

/// A magnitude below 2^53 at an exponent of at most -55 rounds to zero.
proof fn lemma_rnd_tiny(m: nat, e: int)
    requires
        m < pow2(53),
        e <= -55,
    ensures
        rnd(m, e) == 0,
{
    lemma2_to64();
    lemma2_to64_rest();
    if m == 0 {
        lemma_rnd_zero(e);
        return;
    }
    lemma_bitlen_bounds(m);
    if bitlen(m) > 53 {
        lemma_pow2_le(53, (bitlen(m) - 1) as nat);
    }
    let sh = (-e) as nat;
    lemma_pow2_le(53, (sh - 1) as nat);
    lemma_pow2_le((sh - 1) as nat, sh);
    lemma_rne_shr_small(m, sh);
    lemma_mul_basics(pow2(0) as int);
}

/// Scales a binary64 number by `2^n`, rounding once.
pub fn ldexp_enc(b: u64, n: i32) -> (r: u64)
    ensures
        r == fldexp(b, n as int),
{
    let (_s, e, f) = fields(b);
    if e == 0x7ff && f != 0 {
        return NAN;
    }
    if e == 0x7ff || (e == 0 && f == 0) {
        return b;
    }
    let (s, sig, k) = unpack(b);
    proof {
        lemma2_to64();
        lemma2_to64_rest();
        lemma_units_bounds(b);
        if sig == 0 {
            lemma_mul_basics(pow2(k as nat) as int);
        }
        lemma_ldexp_clamp(sig as nat, k as nat, n as int);
        lemma_rnd_shift(sig as nat, n as int, k as nat);
        lemma_rnd_shift(sig as nat, 3000, k as nat);
        lemma_rnd_shift(sig as nat, -3000, k as nat);
    }
    let nn: i64 = if n > 3000 {
        3000
    } else if n < -3000 {
        -3000
    } else {
        n as i64
    };
    proof {
        if n < -3000 {
            lemma_pow2_pos(2098);
        }
    }
    round_pack(s, sig as u128, k as i64 + nn)
}

} // verus!
