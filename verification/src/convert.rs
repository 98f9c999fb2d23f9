//! Conversions between double-double numbers and the primitive integers.
use crate::ieee::{
    lemma_pow2_big, pow2_u128,
    assemble, fields, lemma_div_mod_shifted, bit_length, bitlen, enc_is_finite, has_int_value,
    lemma_bitlen_bounds, lemma_rne_shr_bounds, rne_shr_u64, round53, round_int, scaled,
    sign_bit, significand, two52, unit_shift, units, frac_field, exp_field,
};
use crate::laws::law_encoding_unique;
use crate::ops::{lemma_round_exact, magnitude, round_signed};
use crate::rounding::{enc_parts, lemma_enc_parts, lemma_pow2_le, lemma_representable_small};
use crate::Compensated;
use crate::Df64;
use vstd::arithmetic::div_mod::*;
use vstd::arithmetic::mul::*;
use vstd::arithmetic::power2::*;
use vstd::bits::*;
use vstd::prelude::*;

verus! {

/// The integer of sign `neg` and magnitude `m`.
pub open spec fn signed(neg: bool, m: int) -> int {
    if neg {
        -m
    } else {
        m
    }
}

/// The encoding of the integer of sign `neg` and magnitude `m`, which has at
/// most 53 bits and so is a binary64 number.  Zero is positive zero.
pub fn encode_exact(neg: bool, m: u64) -> (b: u64)
    requires
        m < pow2(53),
    ensures
        has_int_value(b, signed(neg, m as int)),
        m == 0 ==> b == 0,
{
    if m == 0 {
        proof {
            assert(0u64 / 0x10_0000_0000_0000u64 == 0 && 0u64 % 0x10_0000_0000_0000u64 == 0)
                by (bit_vector);
            assert(significand(0) == 0);
            lemma_mul_basics(pow2(0) as int);
            assert(units(0) == 0);
        }
        return 0;
    }
    let len = bit_length(m);
    proof {
        lemma_bitlen_bounds(m as nat);
        lemma2_to64();
        lemma2_to64_rest();
        if len > 53 {
            lemma_pow2_strictly_increases(53, (len - 1) as nat);
        }
    }
    let p: u64 = (len - 1) as u64;
    let sh: u64 = 52 - p;
    proof {
        lemma_pow2_adds(p as nat, sh as nat);
        lemma_pow2_adds((p + 1) as nat, sh as nat);
        lemma_pow2_pos(sh as nat);
        lemma_mul_inequality(pow2(p as nat) as int, m as int, pow2(sh as nat) as int);
        lemma_mul_strict_inequality(m as int, pow2((p + 1) as nat) as int, pow2(sh as nat) as int);
        lemma_u64_shl_is_mul(m, sh);
    }
    let sig = m << sh;
    assert(two52() <= sig < 2 * two52());
    let e: u64 = 1023 + p;
    let f: u64 = sig - 0x10_0000_0000_0000;
    let b = assemble(neg, e, f);
    proof {
        assert(significand(b) == m * pow2(sh as nat));
        assert(unit_shift(b) == 1022 + p);
        lemma_pow2_adds(sh as nat, (1022 + p) as nat);
        lemma_mul_is_associative(m as int, pow2(sh as nat) as int, pow2((1022 + p) as nat) as int);
        assert(units(b) == m * pow2(1074));
        lemma_mul_unary_negation(m as int, pow2(1074) as int);
    }
    b
}

/// A magnitude below 2^53 is a binary64 number.
pub proof fn lemma_round53_small(m: nat)
    requires
        m < pow2(53),
    ensures
        round53(m) == m,
{
    if m > 0 {
        lemma_bitlen_bounds(m);
        if bitlen(m) > 53 {
            lemma_pow2_strictly_increases(53, (bitlen(m) - 1) as nat);
        }
    }
}

/// The encoding of the binary64 number nearest to the integer of sign `neg`
/// and magnitude `m`, and the magnitude of that number.
pub fn encode_rounded(neg: bool, m: u64) -> (r: (u64, u128))
    ensures
        r.1 == round53(m as nat),
        has_int_value(r.0, signed(neg, r.1 as int)),
        m == 0 ==> r.0 == 0,
        m as int - r.1 < pow2(11),
        r.1 - (m as int) < pow2(11),
{
    proof {
        lemma2_to64();
        lemma2_to64_rest();
    }
    if m < 0x20_0000_0000_0000 {
        proof {
            lemma_round53_small(m as nat);
        }
        let b = encode_exact(neg, m);
        return (b, m as u128);
    }
    let len = bit_length(m);
    proof {
        lemma_bitlen_bounds(m as nat);
        if len <= 53 {
            lemma_pow2_strictly_increases((len - 1) as nat, 53);
            if len == 53 {
                lemma_pow2_unfold(53);
            }
        }
        if len > 64 {
            lemma_pow2_strictly_increases(64, (len - 1) as nat);
        }
    }
    let k: u64 = (len - 53) as u64;
    let q = rne_shr_u64(m, k);
    proof {
        let pk = pow2(k as nat);
        lemma_pow2_pos(k as nat);
        lemma_pow2_adds(52, k as nat);
        lemma_pow2_adds(53, k as nat);
        assert(pow2((len - 1) as nat) == pow2(52) * pk);
        assert(pow2(len as nat) == pow2(53) * pk);
        lemma_rne_shr_bounds(m as nat, k as nat);
        lemma_fundamental_div_mod(m as int, pk as int);
        lemma_mod_bound(m as int, pk as int);
        let fl = m as nat / pk;
        assert(fl >= pow2(52)) by {
            if fl < pow2(52) {
                lemma_mul_inequality((fl + 1) as int, pow2(52) as int, pk as int);
                lemma_mul_is_distributive_add_other_way(pk as int, fl as int, 1);
                lemma_mul_is_commutative(pk as int, fl as int);
            }
        }
        assert(fl < pow2(53)) by {
            if fl >= pow2(53) {
                lemma_mul_inequality(pow2(53) as int, fl as int, pk as int);
                lemma_mul_is_commutative(pk as int, fl as int);
            }
        }
        assert(round53(m as nat) == q * pk);
        if k < 11 {
            lemma_pow2_strictly_increases(k as nat, 11);
        }
    }
    let big: bool = q == 0x20_0000_0000_0000;
    let sig: u64 = if big {
        0x10_0000_0000_0000
    } else {
        q
    };
    let kk: u64 = if big {
        k + 1
    } else {
        k
    };
    let e: u64 = 1075 + kk;
    let f: u64 = sig - 0x10_0000_0000_0000;
    let b = assemble(neg, e, f);
    proof {
        lemma_u64_pow2_no_overflow(k as nat);
        lemma_u64_shl_is_mul(1, k);
        if k < 11 {
            lemma_pow2_strictly_increases(k as nat, 11);
        }
        lemma_mul_upper_bound(q as int, pow2(53) as int, pow2(k as nat) as int, pow2(11) as int);
        lemma_pow2_adds(53, 11);
    }
    let rm: u128 = (q as u128) * ((1u64 << k) as u128);
    proof {
        let pk = pow2(k as nat);
        lemma_u64_shl_is_mul(1, k);
        assert(rm == q * pk);
        assert(significand(b) == sig);
        assert(unit_shift(b) == 1074 + kk);
        lemma_pow2_adds(kk as nat, 1074);
        lemma_mul_is_associative(sig as int, pow2(kk as nat) as int, pow2(1074) as int);
        if big {
            lemma_pow2_adds(1, k as nat);
            lemma_pow2_unfold(53);
            lemma_mul_is_associative(pow2(52) as int, 2, pk as int);
        }
        assert(sig * pow2(kk as nat) == q * pk);
        assert(units(b) == rm * pow2(1074));
        lemma_fundamental_div_mod(m as int, pk as int);
        lemma_mod_bound(m as int, pk as int);
        lemma_mul_is_commutative(pk as int, (m as nat / pk) as int);
        lemma_mul_is_distributive_add_other_way(pk as int, (m as nat / pk) as int, 1);
        assert(rm == (m as nat / pk) * pk || rm == (m as nat / pk + 1) * pk);
        lemma_mul_unary_negation(rm as int, pow2(1074) as int);
    }
    (b, rm)
}

/// An integer split into the binary64 number nearest to it and the
/// remainder, which is a binary64 number too.
fn split_int(neg: bool, m: u64) -> (r: Df64)
    ensures
        has_int_value(r.hi_part(), signed(neg, round53(m as nat) as int)),
        has_int_value(r.lo_part(), signed(neg, m - round53(m as nat))),
        m == 0 ==> r.hi_part() == 0,
        m == round53(m as nat) ==> r.lo_part() == 0,
{
    let (hi, rm) = encode_rounded(neg, m);
    proof {
        lemma2_to64();
        lemma2_to64_rest();
        lemma_pow2_strictly_increases(11, 53);
    }
    let lo = if rm <= m as u128 {
        encode_exact(neg, (m as u128 - rm) as u64)
    } else {
        encode_exact(!neg, (rm - m as u128) as u64)
    };
    Compensated::new(hi, lo)
}

/// Converts `x` to a double-double number, exactly.
pub fn from_i8(x: i8) -> (r: Df64)
    ensures
        has_int_value(r.hi_part(), x as int),
        r.lo_part() == 0,
        x == 0 ==> r.hi_part() == 0,
{
    proof {
        lemma2_to64();
        lemma2_to64_rest();
    }
    let m: u64 = if x < 0 {
        (-(x as i64)) as u64
    } else {
        x as u64
    };
    Compensated::new(encode_exact(x < 0, m), 0)
}

/// Converts `x` to a double-double number, exactly.
pub fn from_i16(x: i16) -> (r: Df64)
    ensures
        has_int_value(r.hi_part(), x as int),
        r.lo_part() == 0,
        x == 0 ==> r.hi_part() == 0,
{
    proof {
        lemma2_to64();
        lemma2_to64_rest();
    }
    let m: u64 = if x < 0 {
        (-(x as i64)) as u64
    } else {
        x as u64
    };
    Compensated::new(encode_exact(x < 0, m), 0)
}

/// The integer `v` as a binary64 number, rounded to nearest (ties to
/// even), as `v as f64` gives it.
pub open spec fn int_enc(v: int) -> u64 {
    round_signed(v * pow2(1074), 0, false)
}

/// `v as f64` for `|v| < 2^53`, where it is exact.
pub fn small_int_enc(v: i64) -> (r: u64)
    requires
        -0x20_0000_0000_0000 < v < 0x20_0000_0000_0000,
    ensures
        r == int_enc(v as int),
        has_int_value(r, v as int),
{
    proof {
        lemma2_to64();
        lemma2_to64_rest();
    }
    let m: u64 = if v < 0 {
        (-v) as u64
    } else {
        v as u64
    };
    let b = encode_exact(v < 0, m);
    proof {
        let s = v * pow2(1074);
        lemma_pow2_pos(1074);
        if v == 0 {
            assert(s == 0) by {
                lemma_mul_basics(pow2(1074) as int);
            }
            lemma_enc_parts(false, 0, 0);
            assert(enc_parts(false, 0, 0) == 0);
        } else {
            assert(magnitude(s) == m * pow2(1074)) by {
                if v < 0 {
                    lemma_mul_unary_negation(v as int, pow2(1074) as int);
                }
            }
            lemma_representable_small(m as nat, 1074);
            lemma_pow2_adds(53, 1074);
            lemma_pow2_strictly_increases(1127, 2098);
            lemma_mul_strict_inequality(m as int, pow2(53) as int, pow2(1074) as int);
            lemma_round_exact(s, false);
            let r = round_signed(s, 0, false);
            assert(s != 0) by {
                lemma_mul_strict_inequality(0, m as int, pow2(1074) as int);
            }
            law_encoding_unique(b, r);
        }
    }
    b
}

/// Converts `x` to a double-double number, exactly.
pub fn from_i32(x: i32) -> (r: Df64)
    ensures
        has_int_value(r.hi_part(), x as int),
        r.lo_part() == 0,
        x == 0 ==> r.hi_part() == 0,
{
    proof {
        lemma2_to64();
        lemma2_to64_rest();
    }
    let m: u64 = if x < 0 {
        (-(x as i64)) as u64
    } else {
        x as u64
    };
    Compensated::new(encode_exact(x < 0, m), 0)
}

/// Converts `x` to a double-double number, exactly.
pub fn from_u8(x: u8) -> (r: Df64)
    ensures
        has_int_value(r.hi_part(), x as int),
        r.lo_part() == 0,
        x == 0 ==> r.hi_part() == 0,
{
    proof {
        lemma2_to64();
        lemma2_to64_rest();
    }
    Compensated::new(encode_exact(false, x as u64), 0)
}

/// Converts `x` to a double-double number, exactly.
pub fn from_u16(x: u16) -> (r: Df64)
    ensures
        has_int_value(r.hi_part(), x as int),
        r.lo_part() == 0,
        x == 0 ==> r.hi_part() == 0,
{
    proof {
        lemma2_to64();
        lemma2_to64_rest();
    }
    Compensated::new(encode_exact(false, x as u64), 0)
}

/// Converts `x` to a double-double number, exactly.
pub fn from_u32(x: u32) -> (r: Df64)
    ensures
        has_int_value(r.hi_part(), x as int),
        r.lo_part() == 0,
        x == 0 ==> r.hi_part() == 0,
{
    proof {
        lemma2_to64();
        lemma2_to64_rest();
    }
    Compensated::new(encode_exact(false, x as u64), 0)
}

/// Converts `x` to a double-double number, exactly: the leading part is the
/// binary64 number nearest to `x`, and the compensate holds the low bits
/// that binary64 cannot hold.
pub fn from_i64(x: i64) -> (r: Df64)
    ensures
        has_int_value(r.hi_part(), round_int(x as int)),
        has_int_value(r.lo_part(), x - round_int(x as int)),
        x == 0 ==> r.hi_part() == 0,
        x == round_int(x as int) ==> r.lo_part() == 0,
{
    let m: u64 = if x < 0 {
        (-(x as i128)) as u64
    } else {
        x as u64
    };
    split_int(x < 0, m)
}

/// Converts `x` to a double-double number, exactly: the leading part is the
/// binary64 number nearest to `x`, and the compensate holds the low bits
/// that binary64 cannot hold.
pub fn from_u64(x: u64) -> (r: Df64)
    ensures
        has_int_value(r.hi_part(), round_int(x as int)),
        has_int_value(r.lo_part(), x - round_int(x as int)),
        x == 0 ==> r.hi_part() == 0,
        x == round_int(x as int) ==> r.lo_part() == 0,
{
    split_int(false, x)
}

/// Converts `x` to a double-double number, exactly: the leading part is the
/// binary64 number nearest to `x`, and the compensate holds the low bits
/// that binary64 cannot hold.
pub fn from_isize(x: isize) -> (r: Df64)
    ensures
        has_int_value(r.hi_part(), round_int(x as int)),
        has_int_value(r.lo_part(), x - round_int(x as int)),
        x == 0 ==> r.hi_part() == 0,
        x == round_int(x as int) ==> r.lo_part() == 0,
{
    from_i64(x as i64)
}

/// Converts `x` to a double-double number, exactly: the leading part is the
/// binary64 number nearest to `x`, and the compensate holds the low bits
/// that binary64 cannot hold.
pub fn from_usize(x: usize) -> (r: Df64)
    ensures
        has_int_value(r.hi_part(), round_int(x as int)),
        has_int_value(r.lo_part(), x - round_int(x as int)),
        x == 0 ==> r.hi_part() == 0,
        x == round_int(x as int) ==> r.lo_part() == 0,
{
    from_u64(x as u64)
}


// ---------------------------------------------------------------------------
// Double-double to integer

/// The value of the finite number `b`, truncated toward zero.
pub open spec fn trunc_int(b: u64) -> int {
    signed(sign_bit(b), (units(b) / pow2(1074)) as int)
}

/// Comparisons of `u` with a multiple of `p`, read from the quotient and
/// the remainder of `u / p`.
proof fn lemma_compare_multiple(u: nat, p: nat, c: nat)
    requires
        p > 0,
    ensures
        (u < c * p) == (u / p < c),
        (u <= c * p) == (u / p < c || (u / p == c && u % p == 0)),
{
    let q = u / p;
    let r = u % p;
    lemma_fundamental_div_mod(u as int, p as int);
    lemma_mod_bound(u as int, p as int);
    assert((u < c * p) == (q < c) && (u <= c * p) == (q < c || (q == c && r == 0)))
        by (nonlinear_arith)
        requires
            u == p * q + r,
            0 <= r < p,
            q >= 0,
    ;
}

/// `m * 2^e`.
pub open spec fn shifted(m: nat, e: nat) -> nat {
    m * pow2(e)
}

/// `m * 2^e` units of `2^-1074` divided by `2^1074`, rounded down, and
/// whether a remainder is left, where the quotient is below `2^128`.
fn quot_pow2(m: u128, e: u64) -> (r: Option<(u128, bool)>)
    requires
        e <= 4096,
    ensures
        r matches Some(p) ==> p.0 == shifted(m as nat, e as nat) / pow2(1074) && p.1 == (
        shifted(m as nat, e as nat) % pow2(1074) != 0),
        r is None ==> shifted(m as nat, e as nat) / pow2(1074) >= pow2(128),
{
    proof {
        lemma_pow2_big();
        lemma_pow2_pos(1074);
        lemma_pow2_pos(e as nat);
    }
    if e >= 1074 {
        let k: u64 = e - 1074;
        proof {
            lemma_pow2_adds(k as nat, 1074);
            lemma_mul_is_associative(m as int, pow2(k as nat) as int, pow2(1074) as int);
            lemma_div_by_multiple((m * pow2(k as nat)) as int, pow2(1074) as int);
            lemma_mod_multiples_basic((m * pow2(k as nat)) as int, pow2(1074) as int);
        }
        if m == 0 {
            proof {
                lemma_mul_basics(pow2(k as nat) as int);
            }
            return Some((0, false));
        }
        if k >= 128 {
            proof {
                lemma_pow2_le(128, k as nat);
                lemma_mul_inequality(1, m as int, pow2(k as nat) as int);
            }
            return None;
        }
        let pk = pow2_u128(k);
        proof {
            lemma_pow2_pos(k as nat);
        }
        if m > u128::MAX / pk {
            proof {
                lemma_fundamental_div_mod(u128::MAX as int, pk as int);
                lemma_mod_bound(u128::MAX as int, pk as int);
                lemma_mul_inequality((u128::MAX / pk + 1) as int, m as int, pk as int);
                lemma_mul_is_commutative(m as int, pk as int);
                lemma_mul_is_distributive_add_other_way(pk as int, (u128::MAX / pk) as int, 1);
                assert((u128::MAX / pk + 1) * pk > u128::MAX);
                assert(m * pk >= pow2(128));
                assert(shifted(m as nat, e as nat) / pow2(1074) == m * pk);
            }
            return None;
        }
        proof {
            lemma_fundamental_div_mod(u128::MAX as int, pk as int);
            lemma_mul_inequality(m as int, (u128::MAX / pk) as int, pk as int);
            lemma_mul_is_commutative((u128::MAX / pk) as int, pk as int);
        }
        Some((m * pk, false))
    } else {
        let k: u64 = 1074 - e;
        proof {
            lemma_div_mod_shifted(m as nat, e as nat, 1074);
        }
        if k >= 128 {
            proof {
                lemma_pow2_le(128, k as nat);
                lemma_basic_div(m as int, pow2(k as nat) as int);
                lemma_small_mod(m as nat, pow2(k as nat));
                if m != 0 {
                    lemma_mul_strictly_positive(m as int, pow2(e as nat) as int);
                } else {
                    lemma_mul_basics(pow2(e as nat) as int);
                }
            }
            return Some((0, m != 0));
        }
        let pk = pow2_u128(k);
        proof {
            lemma_pow2_pos(k as nat);
            let rr = (m % pk) as nat;
            if rr != 0 {
                lemma_mul_strictly_positive(rr as int, pow2(e as nat) as int);
            } else {
                lemma_mul_basics(pow2(e as nat) as int);
            }
        }
        Some((m / pk, m % pk != 0))
    }
}

/// `x == q * d + r` with `0 <= r < d` gives the quotient and the remainder.
proof fn lemma_quot_rem(x: int, d: int, q: int, r: int)
    requires
        d > 0,
        0 <= r < d,
        x == q * d + r,
    ensures
        x / d == q,
        x % d == r,
{
    lemma_fundamental_div_mod_converse_div(x, d, q, r);
    lemma_fundamental_div_mod_converse_mod(x, d, q, r);
}

/// `m * 2^(e + d) == (m * 2^d) * 2^e`.
proof fn lemma_shifted_split(m: nat, e: nat, d: nat)
    ensures
        shifted(m, e + d) == shifted(m * pow2(d), e),
{
    lemma_pow2_adds(d, e);
    lemma_mul_is_associative(m as int, pow2(d) as int, pow2(e) as int);
}

/// The significand and the unit shift of a finite number.
fn sig_shift(b: u64) -> (r: (u64, u64))
    requires
        enc_is_finite(b),
    ensures
        r.0 == significand(b),
        r.1 == unit_shift(b),
        r.0 < pow2(53),
        r.1 <= 2045,
        shifted(r.0 as nat, r.1 as nat) == units(b),
{
    proof {
        lemma2_to64();
        lemma2_to64_rest();
    }
    let (_s, e, f) = fields(b);
    proof {
        assert(frac_field(b) < 0x10_0000_0000_0000) by {
            assert(b % 0x10_0000_0000_0000 < 0x10_0000_0000_0000) by (bit_vector);
        }
    }
    if e == 0 {
        (f, 0)
    } else {
        (f + 0x10_0000_0000_0000, e - 1)
    }
}

/// Whether `ma * 2^ea >= mb * 2^eb`.
fn mag_ge(ma: u64, ea: u64, mb: u64, eb: u64) -> (r: bool)
    requires
        ma < pow2(53),
        mb < pow2(53),
    ensures
        r == (shifted(ma as nat, ea as nat) >= shifted(mb as nat, eb as nat)),
{
    proof {
        lemma2_to64();
        lemma_pow2_big();
    }
    if ea >= eb {
        let d: u64 = ea - eb;
        proof {
            lemma_shifted_split(ma as nat, eb as nat, d as nat);
            lemma_pow2_pos(eb as nat);
        }
        if d >= 64 {
            proof {
                lemma_pow2_le(53, d as nat);
                if ma > 0 {
                    lemma_mul_inequality(1, ma as int, pow2(d as nat) as int);
                    lemma_mul_inequality(mb as int, (ma * pow2(d as nat)) as int, pow2(eb as nat) as int);
                }
                if ma == 0 {
                    lemma_mul_basics(pow2(d as nat) as int);
                    lemma_mul_basics(pow2(eb as nat) as int);
                    if mb > 0 {
                        lemma_mul_strictly_positive(mb as int, pow2(eb as nat) as int);
                    } else {
                        lemma_mul_basics(pow2(eb as nat) as int);
                    }
                }
            }
            if ma == 0 {
                mb == 0
            } else {
                true
            }
        } else {
            let pd = pow2_u128(d);
            proof {
                lemma_pow2_le(d as nat, 63);
                lemma_mul_upper_bound(ma as int, pow2(53) as int, pd as int, pow2(63) as int);
                lemma_pow2_adds(53, 63);
                lemma_pow2_le(116, 127);
                let w = ma * pow2(d as nat);
                if w >= mb {
                    lemma_mul_inequality(mb as int, w as int, pow2(eb as nat) as int);
                } else {
                    lemma_mul_strict_inequality(w as int, mb as int, pow2(eb as nat) as int);
                }
            }
            (ma as u128) * pd >= mb as u128
        }
    } else {
        let d: u64 = eb - ea;
        proof {
            lemma_shifted_split(mb as nat, ea as nat, d as nat);
            lemma_pow2_pos(ea as nat);
        }
        if d >= 64 {
            proof {
                lemma_pow2_le(53, d as nat);
                if mb > 0 {
                    lemma_mul_inequality(1, mb as int, pow2(d as nat) as int);
                    lemma_mul_strict_inequality(ma as int, (mb * pow2(d as nat)) as int, pow2(ea as nat) as int);
                } else {
                    lemma_mul_basics(pow2(d as nat) as int);
                    lemma_mul_basics(pow2(ea as nat) as int);
                    lemma_mul_nonnegative(ma as int, pow2(ea as nat) as int);
                }
            }
            mb == 0
        } else {
            let pd = pow2_u128(d);
            proof {
                lemma_pow2_le(d as nat, 63);
                lemma_mul_upper_bound(mb as int, pow2(53) as int, pd as int, pow2(63) as int);
                lemma_pow2_adds(53, 63);
                lemma_pow2_le(116, 127);
                let w = mb * pow2(d as nat);
                if ma >= w {
                    lemma_mul_inequality(w as int, ma as int, pow2(ea as nat) as int);
                } else {
                    lemma_mul_strict_inequality(ma as int, w as int, pow2(ea as nat) as int);
                }
            }
            ma as u128 >= (mb as u128) * pd
        }
    }
}

/// The quotient by `2^1074` of `ma * 2^ea + mb * 2^eb`, rounded down, and
/// whether a remainder is left, where the quotient is below `2^128`.
#[verifier::rlimit(40)]
fn sum_mag(ma: u64, ea: u64, mb: u64, eb: u64) -> (r: Option<(u128, bool)>)
    requires
        ma < pow2(53),
        mb < pow2(53),
        eb <= ea <= 2045,
    ensures
        r matches Some(p) ==> p.0 == (shifted(ma as nat, ea as nat) + shifted(mb as nat, eb as nat))
            / pow2(1074) && p.1 == ((shifted(ma as nat, ea as nat) + shifted(mb as nat, eb as nat))
            % pow2(1074) != 0),
        r is None ==> (shifted(ma as nat, ea as nat) + shifted(mb as nat, eb as nat)) / pow2(1074)
            >= pow2(128),
{
    let ghost a = shifted(ma as nat, ea as nat);
    let ghost b = shifted(mb as nat, eb as nat);
    let ghost p = pow2(1074);
    proof {
        lemma2_to64();
        lemma_pow2_big();
        lemma_pow2_pos(1074);
        lemma_pow2_pos(eb as nat);
        lemma_pow2_pos(ea as nat);
        lemma_mul_nonnegative(mb as int, pow2(eb as nat) as int);
    }
    let d: u64 = ea - eb;
    proof {
        lemma_shifted_split(ma as nat, eb as nat, d as nat);
    }
    if d <= 74 {
        let pd = pow2_u128(d);
        proof {
            lemma_pow2_le(d as nat, 74);
            lemma_mul_upper_bound(ma as int, pow2(53) as int, pd as int, pow2(74) as int);
            lemma_pow2_adds(53, 74);
            lemma_pow2_le(127, 128);
        }
        let w: u128 = (ma as u128) * pd + mb as u128;
        proof {
            lemma_mul_is_distributive_add_other_way(pow2(eb as nat) as int, (ma * pd) as int, mb as int);
            assert(shifted(w as nat, eb as nat) == a + b);
        }
        return quot_pow2(w, eb);
    }
    if mb == 0 {
        proof {
            lemma_mul_basics(pow2(eb as nat) as int);
        }
        return quot_pow2(ma as u128, ea);
    }
    // the second term is below 2^(ea - 21)
    proof {
        lemma_mul_strict_inequality(mb as int, pow2(53) as int, pow2(eb as nat) as int);
        lemma_pow2_adds(53, eb as nat);
        lemma_pow2_le(53 + eb as nat, (ea - 21) as nat);
        lemma_pow2_adds((ea - 21) as nat, 21);
        lemma_pow2_pos((ea - 21) as nat);
        assert(b < pow2((ea - 21) as nat));
    }
    if ea >= 1074 {
        match quot_pow2(ma as u128, ea) {
            None => {
                proof {
                    lemma_div_is_ordered(a as int, (a + b) as int, p as int);
                }
                None
            },
            Some((qa, _fa)) => {
                proof {
                    let sa = (ea - 1074) as nat;
                    lemma_shifted_split(ma as nat, 1074, sa);
                    lemma_mul_nonnegative(ma as int, pow2(sa) as int);
                    lemma_quot_rem(a as int, p as int, (ma * pow2(sa)) as int, 0);
                    lemma_fundamental_div_mod(a as int, p as int);
                }
                match quot_pow2(mb as u128, eb) {
                    None => {
                        proof {
                            lemma_div_is_ordered(b as int, (a + b) as int, p as int);
                        }
                        None
                    },
                    Some((qb, fb)) => {
                        proof {
                            lemma_fundamental_div_mod(b as int, p as int);
                            lemma_mod_bound(b as int, p as int);
                            lemma_mul_is_distributive_add_other_way(p as int, qa as int, qb as int);
                            lemma_mul_is_commutative(p as int, qa as int);
                            lemma_mul_is_commutative(p as int, qb as int);
                            lemma_mul_is_commutative(p as int, (qa + qb) as int);
                            lemma_quot_rem((a + b) as int, p as int, (qa + qb) as int, (b % p) as int);
                        }
                        match qa.checked_add(qb) {
                            None => None,
                            Some(q) => Some((q, fb)),
                        }
                    },
                }
            },
        }
    } else {
        // a is a multiple of 2^ea, and 0 < b < 2^ea
        let k: u64 = 1074 - ea;
        proof {
            lemma_pow2_adds(ea as nat, k as nat);
            lemma_pow2_pos(k as nat);
            let pe = pow2(ea as nat);
            let pk = pow2(k as nat);
            lemma_mul_strictly_positive(mb as int, pow2(eb as nat) as int);
            // (a + b) / 2^ea == ma and the remainder is b
            lemma_mul_is_commutative(ma as int, pe as int);
            lemma_quot_rem((a + b) as int, pe as int, ma as int, b as int);
            lemma_quot_rem(a as int, pe as int, ma as int, 0);
            lemma_div_denominator((a + b) as int, pe as int, pk as int);
            lemma_div_denominator(a as int, pe as int, pk as int);
            lemma_mod_mod((a + b) as int, pe as int, pk as int);
            lemma_mul_is_commutative(pe as int, pk as int);
            if (a + b) % p == 0 {
                assert(((a + b) % p) % pe == 0) by {
                    lemma_small_mod(0, pe);
                }
            }
        }
        match quot_pow2(ma as u128, ea) {
            None => {
                proof {
                    lemma_div_is_ordered(a as int, (a + b) as int, p as int);
                }
                None
            },
            Some((qa, _fa)) => Some((qa, true)),
        }
    }
}

/// The quotient by `2^1074` of `ma * 2^ea - mb * 2^eb` (no less than
/// zero), rounded down, and whether a remainder is left, where the quotient
/// is below `2^128`.
#[verifier::rlimit(60)]
#[verifier::spinoff_prover]
fn diff_mag(ma: u64, ea: u64, mb: u64, eb: u64) -> (r: Option<(u128, bool)>)
    requires
        ma < pow2(53),
        mb < pow2(53),
        ea <= 2045,
        eb <= 2045,
        shifted(mb as nat, eb as nat) <= shifted(ma as nat, ea as nat),
    ensures
        r matches Some(p) ==> p.0 == (shifted(ma as nat, ea as nat) - shifted(mb as nat, eb as nat))
            / (pow2(1074) as int) && p.1 == ((shifted(ma as nat, ea as nat) - shifted(
            mb as nat,
            eb as nat,
        )) % (pow2(1074) as int) != 0),
        r is None ==> (shifted(ma as nat, ea as nat) - shifted(mb as nat, eb as nat)) / (pow2(
            1074,
        ) as int) >= pow2(128),
{
    let ghost a = shifted(ma as nat, ea as nat) as int;
    let ghost b = shifted(mb as nat, eb as nat) as int;
    let ghost p = pow2(1074) as int;
    proof {
        lemma2_to64();
        lemma2_to64_rest();
        lemma_pow2_big();
        lemma_pow2_pos(1074);
        lemma_pow2_pos(eb as nat);
        lemma_pow2_pos(ea as nat);
        lemma_mul_nonnegative(mb as int, pow2(eb as nat) as int);
    }
    if ea >= eb {
        let d: u64 = ea - eb;
        proof {
            lemma_shifted_split(ma as nat, eb as nat, d as nat);
        }
        if d <= 74 {
            let pd = pow2_u128(d);
            proof {
                lemma_pow2_le(d as nat, 74);
                lemma_mul_upper_bound(ma as int, pow2(53) as int, pd as int, pow2(74) as int);
                lemma_pow2_adds(53, 74);
                lemma_pow2_le(127, 128);
                lemma_mul_inequality_converse(mb as int, (ma * pd) as int, pow2(eb as nat) as int);
            }
            let w: u128 = (ma as u128) * pd - mb as u128;
            proof {
                lemma_mul_is_distributive_sub_other_way(pow2(eb as nat) as int, (ma * pd) as int, mb as int);
                assert(shifted(w as nat, eb as nat) == a - b);
            }
            return quot_pow2(w, eb);
        }
        if mb == 0 {
            proof {
                lemma_mul_basics(pow2(eb as nat) as int);
            }
            return quot_pow2(ma as u128, ea);
        }
        // 0 < b < 2^(ea - 21)
        proof {
            lemma_mul_strict_inequality(mb as int, pow2(53) as int, pow2(eb as nat) as int);
            lemma_mul_strictly_positive(mb as int, pow2(eb as nat) as int);
            lemma_pow2_adds(53, eb as nat);
            lemma_pow2_le(53 + eb as nat, (ea - 21) as nat);
            assert(0 < b < pow2((ea - 21) as nat));
        }
        if ea >= 1074 {
            let sa: u64 = ea - 1074;
            let ghost ia = ma * pow2(sa as nat);
            proof {
                lemma_shifted_split(ma as nat, 1074, sa as nat);
                assert(a == ia * p);
                lemma_mul_nonnegative(ma as int, pow2(sa as nat) as int);
            }
            if sa > 128 {
                proof {
                    // ma >= 1, so ia >= 2^sa >= 2^129, and b < 2^(sa - 21) p
                    assert(ma >= 1) by {
                        if ma == 0 {
                            lemma_mul_basics(pow2(sa as nat) as int);
                        }
                    }
                    lemma_mul_inequality(1, ma as int, pow2(sa as nat) as int);
                    lemma_pow2_adds((sa - 21) as nat, 1074);
                    lemma_pow2_adds(1, 128);
                    lemma_pow2_le(129, sa as nat);
                    lemma_pow2_le(108, (sa - 21) as nat);
                    lemma_pow2_adds(21, (sa - 21) as nat);
                    lemma_pow2_adds(21, 108);
                    let t = pow2((sa - 21) as nat) as int;
                    assert(a - b >= (ia - t) * p) by {
                        lemma_mul_is_distributive_sub_other_way(p, ia as int, t);
                    }
                    assert(ia - t >= pow2(128)) by (nonlinear_arith)
                        requires
                            ia >= pow2(21) * t,
                            t >= 1,
                            pow2(21) == 0x20_0000,
                            pow2(129) == pow2(21) * pow2(108),
                            pow2(108) <= t,
                            pow2(129) == 2 * pow2(128),
                    ;
                    lemma_div_is_ordered((ia - t) * p, a - b, p);
                    lemma_div_multiples_vanish(ia - t, p);
                    lemma_mul_is_commutative(ia - t, p);
                }
                return None;
            }
            let qbo = quot_pow2(mb as u128, eb);
            proof {
                lemma_pow2_adds((ea - 21) as nat, 0);
                if sa >= 21 {
                    lemma_pow2_adds((sa - 21) as nat, 1074);
                    lemma_div_multiples_vanish(pow2((sa - 21) as nat) as int, p);
                    lemma_mul_is_commutative(pow2((sa - 21) as nat) as int, p);
                    lemma_div_is_ordered(b, pow2((ea - 21) as nat) as int, p);
                    lemma_pow2_le((sa - 21) as nat, 107);
                    lemma_pow2_le(107, 128);
                    assert(pow2((ea - 21) as nat) == pow2((sa - 21) as nat) * pow2(1074));
                    assert(pow2((ea - 21) as nat) as int / p == pow2((sa - 21) as nat));
                    assert(b / p <= pow2(107));
                } else {
                    lemma_pow2_le((ea - 21) as nat, 1074);
                    lemma_div_is_ordered(b, p, p);
                    lemma_div_basics(p);
                    lemma_pow2_le(0, 107);
                    assert(b / p <= pow2(107));
                }
            }
            let (qb, fb) = match qbo {
                Some(pr) => pr,
                None => {
                    proof {
                        assert(shifted(mb as nat, eb as nat) / pow2(1074) == b / p);
                        lemma_pow2_strictly_increases(107, 128);
                        assert(false);
                    }
                    return None;
                },
            };
            proof {
                lemma_pow2_le(107, 127);
                assert(qb <= pow2(107));
            }
            let c: u128 = if fb {
                qb + 1
            } else {
                qb
            };
            // a - b == (ia - c) p + (p - b % p, or 0)
            proof {
                lemma_fundamental_div_mod(b, p);
                lemma_mod_bound(b, p);
                lemma_mul_is_commutative(p, qb as int);
                let rb = b % p;
                lemma_mul_is_distributive_sub_other_way(p, ia as int, c as int);
                lemma_mul_is_distributive_add_other_way(p, qb as int, 1);
                lemma_mul_is_commutative(p, ia as int);
                lemma_mul_is_commutative(p, c as int);
                assert(b == qb * p + rb);
                if fb {
                    assert(a - b == (ia - c) * p + (p - rb));
                    lemma_quot_rem(a - b, p, ia - c, p - rb);
                } else {
                    assert(a - b == (ia - c) * p + 0);
                    lemma_quot_rem(a - b, p, ia - c, 0);
                }
                lemma_fundamental_div_mod(a - b, p);
                lemma_mul_is_commutative(p, (a - b) / p);
                assert(ia - c >= 0) by (nonlinear_arith)
                    requires
                        a - b >= 0,
                        a - b == (ia - c) * p + ((a - b) % p),
                        0 <= (a - b) % p < p,
                ;
            }
            match quot_pow2(ma as u128, ea) {
                Some((qa, _fa)) => {
                    proof {
                        lemma_quot_rem(a, p, ia as int, 0);
                    }
                    Some((qa - c, fb))
                },
                None => {
                    let t: u64 = 128 - sa;
                    proof {
                        lemma_quot_rem(a, p, ia as int, 0);
                        lemma_pow2_adds(t as nat, sa as nat);
                        if t < 53 {
                            lemma_pow2_le((t + 1) as nat, 63);
                        }
                        lemma_mul_inequality_converse(pow2(t as nat) as int, ma as int, pow2(sa as nat) as int);
                    }
                    if t >= 53 || ma >= (1u64 << (t + 1)) {
                        proof {
                            if t < 53 {
                                lemma_u64_shl_is_mul(1, (t + 1) as u64);
                                lemma_pow2_adds(1, t as nat);
                            } else {
                                lemma_pow2_le(53, t as nat);
                            }
                            assert(ma >= 2 * pow2(t as nat));
                            lemma_mul_inequality((2 * pow2(t as nat)) as int, ma as int, pow2(sa as nat) as int);
                            lemma_mul_is_associative(2, pow2(t as nat) as int, pow2(sa as nat) as int);
                        }
                        return None;
                    }
                    proof {
                        lemma_pow2_le((t + 1) as nat, 63);
                        lemma_pow2_le(t as nat, 63);
                        lemma_u64_shl_is_mul(1, (t + 1) as u64);
                        lemma_pow2_adds(1, t as nat);
                        lemma_u64_shl_is_mul(1, t);
                    }
                    let r0: u64 = ma - (1u64 << t);
                    let big_r: u128 = if r0 == 0 {
                        0
                    } else {
                        proof {
                            if sa >= 128 {
                                assert(t == 0);
                            }
                            lemma_mul_strict_inequality(r0 as int, pow2(t as nat) as int, pow2(sa as nat) as int);
                        }
                        (r0 as u128) * pow2_u128(sa)
                    };
                    proof {
                        if r0 == 0 {
                            lemma_mul_basics(pow2(sa as nat) as int);
                        }
                        lemma_mul_is_distributive_add_other_way(pow2(sa as nat) as int, pow2(t as nat) as int, r0 as int);
                        assert(ia == pow2(128) + big_r);
                    }
                    if c > big_r {
                        Some((u128::MAX - (c - big_r - 1), fb))
                    } else {
                        None
                    }
                },
            }
        } else {
            let k: u64 = 1074 - ea;
            let ghost pe = pow2(ea as nat) as int;
            let ghost pk = pow2(k as nat) as int;
            proof {
                lemma_pow2_adds(ea as nat, k as nat);
                lemma_pow2_pos(k as nat);
                lemma_mul_is_commutative(ma as int, pe);
                lemma_pow2_le((ea - 21) as nat, ea as nat);
                assert(ma >= 1) by {
                    if ma == 0 {
                        lemma_mul_basics(pe);
                    }
                }
                lemma_mul_is_distributive_sub_other_way(pe, ma as int, 1);
                lemma_quot_rem(a - b, pe, ma - 1, pe - b);
                lemma_div_denominator(a - b, pe, pk);
                lemma_mod_mod(a - b, pe, pk);
                lemma_mul_is_commutative(pe, pk);
                if (a - b) % p == 0 {
                    lemma_small_mod(0, pe as nat);
                }
                lemma_div_mod_shifted(ma as nat, ea as nat, 1074);
                lemma_fundamental_div_mod(ma as int, pk);
                lemma_mod_bound(ma as int, pk);
                lemma_mul_is_commutative(pk, (ma as int) / pk);
                let qa = (ma as int) / pk;
                let ra = (ma as int) % pk;
                if ra > 0 {
                    lemma_quot_rem(ma - 1, pk, qa, ra - 1);
                } else {
                    lemma_mul_is_distributive_sub_other_way(pk, qa, 1);
                    lemma_quot_rem(ma - 1, pk, qa - 1, pk - 1);
                    if qa == 0 {
                        lemma_mul_basics(pk);
                    }
                }
                if ra != 0 {
                    lemma_mul_strictly_positive(ra as int, pe);
                } else {
                    lemma_mul_basics(pe);
                }
                lemma_mul_inequality(ma as int, pow2(53) as int, pe);
            }
            match quot_pow2(ma as u128, ea) {
                Some((qa, fa)) => {
                    if fa {
                        Some((qa, true))
                    } else {
                        Some((qa - 1, true))
                    }
                },
                None => {
                    proof {
                        lemma_mul_inequality(ma as int, pow2(53) as int, pe);
                        lemma_pow2_adds(53, ea as nat);
                        lemma_pow2_le(53 + ea as nat, 1126);
                        lemma_pow2_adds(52, 1074);
                        lemma_div_multiples_vanish(pow2(52) as int, p);
                        lemma_mul_is_commutative(pow2(52) as int, p);
                        lemma_div_is_ordered(a, pow2(52) * p, p);
                        lemma_pow2_le(52, 128);
                        assert(false);
                    }
                    None
                },
            }
        }
    } else {
        let d: u64 = eb - ea;
        proof {
            lemma_shifted_split(mb as nat, ea as nat, d as nat);
        }
        if d <= 74 {
            let pd = pow2_u128(d);
            proof {
                lemma_pow2_le(d as nat, 74);
                lemma_mul_upper_bound(mb as int, pow2(53) as int, pd as int, pow2(74) as int);
                lemma_pow2_adds(53, 74);
                lemma_pow2_le(127, 128);
                lemma_mul_inequality_converse((mb * pd) as int, ma as int, pow2(ea as nat) as int);
            }
            let w: u128 = ma as u128 - (mb as u128) * pd;
            proof {
                lemma_mul_is_distributive_sub_other_way(pow2(ea as nat) as int, ma as int, (mb * pd) as int);
                assert(shifted(w as nat, ea as nat) == a - b);
            }
            return quot_pow2(w, ea);
        }
        proof {
            if mb > 0 {
                lemma_pow2_le(53, d as nat);
                lemma_mul_inequality(1, mb as int, pow2(d as nat) as int);
                lemma_mul_strict_inequality(ma as int, pow2(53) as int, pow2(ea as nat) as int);
                lemma_mul_inequality(pow2(53) as int, (mb * pow2(d as nat)) as int, pow2(ea as nat) as int);
                assert(false);
            }
            lemma_mul_basics(pow2(eb as nat) as int);
        }
        quot_pow2(ma as u128, ea)
    }
}

/// The value of `x`, `hi + lo`, in units of `2^-1074`.
pub open spec fn df_value(x: Df64) -> int {
    scaled(x.hi_part()) + scaled(x.lo_part())
}

/// The sign of the value of `x`, the quotient of its magnitude by `2^1074`
/// (its integer part), and whether a fraction is left, where that quotient
/// is below `2^128`.
#[verifier::rlimit(40)]
fn value_quot(x: Df64) -> (r: Option<(bool, u128, bool)>)
    requires
        enc_is_finite(x.hi_part()),
        enc_is_finite(x.lo_part()),
    ensures
        r matches Some(t) ==> t.1 == magnitude(df_value(x)) / pow2(1074) && t.2 == (magnitude(
            df_value(x),
        ) % pow2(1074) != 0) && (df_value(x) < 0 ==> t.0) && (df_value(x) > 0 ==> !t.0),
        r is None ==> magnitude(df_value(x)) / pow2(1074) >= pow2(128),
{
    let (sh, _eh, _fh) = fields(x.hi());
    let (sl, _el, _fl) = fields(x.lo());
    let (mh, eh) = sig_shift(x.hi());
    let (ml, el) = sig_shift(x.lo());
    let ghost a = shifted(mh as nat, eh as nat) as int;
    let ghost b = shifted(ml as nat, el as nat) as int;
    let ghost v = df_value(x);
    proof {
        lemma_pow2_pos(1074);
        assert(a == units(x.hi_part()) && b == units(x.lo_part()));
        assert(a >= 0 && b >= 0);
    }
    if sh == sl {
        proof {
            assert(magnitude(v) == a + b);
        }
        let r = if eh >= el {
            sum_mag(mh, eh, ml, el)
        } else {
            sum_mag(ml, el, mh, eh)
        };
        match r {
            None => None,
            Some((q, f)) => Some((sh, q, f)),
        }
    } else if mag_ge(mh, eh, ml, el) {
        proof {
            assert(magnitude(v) == a - b);
        }
        match diff_mag(mh, eh, ml, el) {
            None => None,
            Some((q, f)) => Some((sh, q, f)),
        }
    } else {
        proof {
            assert(magnitude(v) == b - a);
        }
        match diff_mag(ml, el, mh, eh) {
            None => None,
            Some((q, f)) => Some((sl, q, f)),
        }
    }
}

/// `x` is finite in both parts, and its value lies in `low <= x < high`.
pub open spec fn value_in_range(x: Df64, low: int, high: int) -> bool {
    &&& enc_is_finite(x.hi_part())
    &&& enc_is_finite(x.lo_part())
    &&& low * pow2(1074) <= df_value(x)
    &&& df_value(x) < high * pow2(1074)
}

/// The value of `x`, truncated toward zero: any fractional part is
/// discarded.
pub open spec fn trunc_value(x: Df64) -> int {
    signed(df_value(x) < 0, (magnitude(df_value(x)) / pow2(1074)) as int)
}

/// The value of `x` truncated toward zero, as a sign and a magnitude, where
/// the value lies in `-low_mag <= x < high_m1 + 1`.
#[verifier::rlimit(40)]
fn convert_core(x: Df64, low_mag: u128, high_m1: u128) -> (r: Option<(bool, u128)>)
    requires
        low_mag <= pow2(127),
    ensures
        r is Some <==> value_in_range(x, -(low_mag as int), high_m1 + 1),
        r matches Some(t) ==> signed(t.0, t.1 as int) == trunc_value(x) && (t.0 ==> t.1 <= low_mag)
            && (!t.0 ==> t.1 <= high_m1),
{
    proof {
        lemma_pow2_big();
        lemma_pow2_pos(1074);
    }
    let (_sh, eh, _fh) = fields(x.hi());
    let (_sl, el, _fl) = fields(x.lo());
    if eh == 0x7ff || el == 0x7ff {
        return None;
    }
    let ghost v = df_value(x);
    let ghost u = magnitude(v);
    let ghost p = pow2(1074);
    proof {
        lemma_compare_multiple(u, p, (high_m1 + 1) as nat);
        lemma_compare_multiple(u, p, low_mag as nat);
        lemma_mul_unary_negation(low_mag as int, p as int);
        lemma_mul_nonnegative(low_mag as int, p as int);
        lemma_mul_strictly_positive((high_m1 + 1) as int, p as int);
    }
    match value_quot(x) {
        None => {
            proof {
                lemma_compare_multiple(u, p, pow2(128));
                lemma_mul_inequality((high_m1 + 1) as int, pow2(128) as int, p as int);
                lemma_pow2_strictly_increases(127, 128);
                lemma_mul_inequality(low_mag as int, pow2(128) as int, p as int);
            }
            None
        },
        Some((n, q, f)) => {
            if !n {
                if q <= high_m1 {
                    Some((false, q))
                } else {
                    None
                }
            } else {
                if q < low_mag || (q == low_mag && !f) {
                    Some((true, q))
                } else {
                    None
                }
            }
        },
    }
}

/// The integer of sign `neg` and magnitude `m`, in `i128`.
fn signed_i128(neg: bool, m: u128) -> (r: i128)
    requires
        neg ==> m <= pow2(127),
        !neg ==> m < pow2(127),
    ensures
        r == signed(neg, m as int),
{
    proof {
        lemma_pow2_big();
    }
    if neg {
        if m == 0x8000_0000_0000_0000_0000_0000_0000_0000u128 {
            i128::MIN
        } else {
            -(m as i128)
        }
    } else {
        m as i128
    }
}

/// Converts `x` to `i8`, if its value is in `i8::MIN <= x < i8::MAX + 1`;
/// any fractional part is discarded.
pub fn try_to_i8(x: Df64) -> (r: Option<i8>)
    ensures
        r is Some <==> value_in_range(x, i8::MIN as int, i8::MAX + 1),
        r matches Some(v) ==> v == trunc_value(x),
{
    proof {
        lemma_pow2_big();
    }
    match convert_core(x, 0x80, 0x7f) {
        None => None,
        Some((n, m)) => {
            let v = signed_i128(n, m);
            Some(v as i8)
        },
    }
}

/// Converts `x` to `i16`, if its value is in `i16::MIN <= x < i16::MAX + 1`;
/// any fractional part is discarded.
pub fn try_to_i16(x: Df64) -> (r: Option<i16>)
    ensures
        r is Some <==> value_in_range(x, i16::MIN as int, i16::MAX + 1),
        r matches Some(v) ==> v == trunc_value(x),
{
    proof {
        lemma_pow2_big();
    }
    match convert_core(x, 0x8000, 0x7fff) {
        None => None,
        Some((n, m)) => {
            let v = signed_i128(n, m);
            Some(v as i16)
        },
    }
}

/// Converts `x` to `i32`, if its value is in `i32::MIN <= x < i32::MAX + 1`;
/// any fractional part is discarded.
pub fn try_to_i32(x: Df64) -> (r: Option<i32>)
    ensures
        r is Some <==> value_in_range(x, i32::MIN as int, i32::MAX + 1),
        r matches Some(v) ==> v == trunc_value(x),
{
    proof {
        lemma_pow2_big();
    }
    match convert_core(x, 0x8000_0000, 0x7fff_ffff) {
        None => None,
        Some((n, m)) => {
            let v = signed_i128(n, m);
            Some(v as i32)
        },
    }
}

/// Converts `x` to `i64`, if its value is in `i64::MIN <= x < i64::MAX + 1`;
/// any fractional part is discarded.
pub fn try_to_i64(x: Df64) -> (r: Option<i64>)
    ensures
        r is Some <==> value_in_range(x, i64::MIN as int, i64::MAX + 1),
        r matches Some(v) ==> v == trunc_value(x),
{
    proof {
        lemma_pow2_big();
    }
    match convert_core(x, 0x8000_0000_0000_0000, 0x7fff_ffff_ffff_ffff) {
        None => None,
        Some((n, m)) => {
            let v = signed_i128(n, m);
            Some(v as i64)
        },
    }
}

/// Converts `x` to `i128`, if its value is in `i128::MIN <= x < i128::MAX + 1`;
/// any fractional part is discarded.
pub fn try_to_i128(x: Df64) -> (r: Option<i128>)
    ensures
        r is Some <==> value_in_range(x, i128::MIN as int, i128::MAX + 1),
        r matches Some(v) ==> v == trunc_value(x),
{
    proof {
        lemma_pow2_big();
    }
    match convert_core(x, 0x8000_0000_0000_0000_0000_0000_0000_0000, 0x7fff_ffff_ffff_ffff_ffff_ffff_ffff_ffff) {
        None => None,
        Some((n, m)) => {
            let v = signed_i128(n, m);
            Some(v as i128)
        },
    }
}

/// Converts `x` to `u8`, if its value is in `0 <= x < u8::MAX + 1`; any
/// fractional part is discarded.
pub fn try_to_u8(x: Df64) -> (r: Option<u8>)
    ensures
        r is Some <==> value_in_range(x, 0, u8::MAX + 1),
        r matches Some(v) ==> v == trunc_value(x),
{
    proof {
        lemma_pow2_big();
    }
    match convert_core(x, 0, 0xff) {
        None => None,
        Some((_n, m)) => Some(m as u8),
    }
}

/// Converts `x` to `u16`, if its value is in `0 <= x < u16::MAX + 1`; any
/// fractional part is discarded.
pub fn try_to_u16(x: Df64) -> (r: Option<u16>)
    ensures
        r is Some <==> value_in_range(x, 0, u16::MAX + 1),
        r matches Some(v) ==> v == trunc_value(x),
{
    proof {
        lemma_pow2_big();
    }
    match convert_core(x, 0, 0xffff) {
        None => None,
        Some((_n, m)) => Some(m as u16),
    }
}

/// Converts `x` to `u32`, if its value is in `0 <= x < u32::MAX + 1`; any
/// fractional part is discarded.
pub fn try_to_u32(x: Df64) -> (r: Option<u32>)
    ensures
        r is Some <==> value_in_range(x, 0, u32::MAX + 1),
        r matches Some(v) ==> v == trunc_value(x),
{
    proof {
        lemma_pow2_big();
    }
    match convert_core(x, 0, 0xffff_ffff) {
        None => None,
        Some((_n, m)) => Some(m as u32),
    }
}

/// Converts `x` to `u64`, if its value is in `0 <= x < u64::MAX + 1`; any
/// fractional part is discarded.
pub fn try_to_u64(x: Df64) -> (r: Option<u64>)
    ensures
        r is Some <==> value_in_range(x, 0, u64::MAX + 1),
        r matches Some(v) ==> v == trunc_value(x),
{
    proof {
        lemma_pow2_big();
    }
    match convert_core(x, 0, 0xffff_ffff_ffff_ffff) {
        None => None,
        Some((_n, m)) => Some(m as u64),
    }
}

/// Converts `x` to `u128`, if its value is in `0 <= x < u128::MAX + 1`; any
/// fractional part is discarded.
pub fn try_to_u128(x: Df64) -> (r: Option<u128>)
    ensures
        r is Some <==> value_in_range(x, 0, u128::MAX + 1),
        r matches Some(v) ==> v == trunc_value(x),
{
    proof {
        lemma_pow2_big();
    }
    match convert_core(x, 0, 0xffff_ffff_ffff_ffff_ffff_ffff_ffff_ffff) {
        None => None,
        Some((_n, m)) => Some(m as u128),
    }
}

/// Converts `x` to `isize`, if its value is in
/// `isize::MIN <= x < isize::MAX + 1`; any fractional part is discarded.
pub fn try_to_isize(x: Df64) -> (r: Option<isize>)
    ensures
        r is Some <==> value_in_range(x, isize::MIN as int, isize::MAX + 1),
        r matches Some(v) ==> v == trunc_value(x),
{
    proof {
        lemma_pow2_big();
    }
    let c = if usize::BITS == 64 {
        convert_core(x, 0x8000_0000_0000_0000, 0x7fff_ffff_ffff_ffff)
    } else {
        convert_core(x, 0x8000_0000, 0x7fff_ffff)
    };
    match c {
        None => None,
        Some((n, m)) => {
            let v = signed_i128(n, m);
            Some(v as isize)
        },
    }
}

/// Converts `x` to `usize`, if its value is in `0 <= x < usize::MAX + 1`;
/// any fractional part is discarded.
pub fn try_to_usize(x: Df64) -> (r: Option<usize>)
    ensures
        r is Some <==> value_in_range(x, 0, usize::MAX + 1),
        r matches Some(v) ==> v == trunc_value(x),
{
    proof {
        lemma_pow2_big();
    }
    let c = if usize::BITS == 64 {
        convert_core(x, 0, 0xffff_ffff_ffff_ffff)
    } else {
        convert_core(x, 0, 0xffff_ffff)
    };
    match c {
        None => None,
        Some((_n, m)) => Some(m as usize),
    }
}

} // verus!
