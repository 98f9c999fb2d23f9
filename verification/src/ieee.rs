//! The IEEE 754 binary64 format, read from its 64-bit encoding.
//!
//! A binary64 number is held here as its encoding: one sign bit, an 11-bit
//! biased exponent field and a 52-bit fraction field.  Every finite number
//! is an integer multiple of 2^-1074, the smallest subnormal; `units` gives
//! its magnitude in that unit, so that all values can be compared and added
//! as integers.
use vstd::arithmetic::div_mod::*;
use vstd::arithmetic::mul::*;
use vstd::arithmetic::power2::*;
use vstd::bits::*;
use vstd::prelude::*;

verus! {

/// 2^52, the weight of the lowest bit of the exponent field.
pub open spec fn two52() -> nat {
    0x10_0000_0000_0000
}

/// The sign bit.
pub open spec fn sign_bit(b: u64) -> bool {
    b >= 0x8000_0000_0000_0000u64
}

/// The biased exponent field (11 bits).
pub open spec fn exp_field(b: u64) -> nat {
    ((b as nat / two52()) % 0x800) as nat
}

/// The fraction field (52 bits).
pub open spec fn frac_field(b: u64) -> nat {
    (b as nat % two52()) as nat
}

pub open spec fn enc_is_nan(b: u64) -> bool {
    exp_field(b) == 0x7ff && frac_field(b) != 0
}

pub open spec fn enc_is_infinite(b: u64) -> bool {
    exp_field(b) == 0x7ff && frac_field(b) == 0
}

pub open spec fn enc_is_finite(b: u64) -> bool {
    exp_field(b) < 0x7ff
}

pub open spec fn enc_is_zero(b: u64) -> bool {
    exp_field(b) == 0 && frac_field(b) == 0
}

pub open spec fn enc_is_subnormal(b: u64) -> bool {
    exp_field(b) == 0 && frac_field(b) != 0
}

pub open spec fn enc_is_normal(b: u64) -> bool {
    0 < exp_field(b) < 0x7ff
}

/// The significand of a finite number: the fraction, with the hidden bit
/// for normal numbers.
pub open spec fn significand(b: u64) -> nat {
    if exp_field(b) == 0 {
        frac_field(b)
    } else {
        frac_field(b) + two52()
    }
}

/// The weight of the lowest significand bit of a finite number, as a power
/// of two above 2^-1074.
pub open spec fn unit_shift(b: u64) -> nat {
    if exp_field(b) == 0 {
        0
    } else {
        (exp_field(b) - 1) as nat
    }
}

/// The magnitude of a finite number in units of 2^-1074.
pub open spec fn units(b: u64) -> nat {
    significand(b) * pow2(unit_shift(b))
}

/// The value of a finite number times 2^1074.
pub open spec fn scaled(b: u64) -> int {
    if sign_bit(b) {
        -units(b)
    } else {
        units(b) as int
    }
}

/// Integer `v` is the exact value of the finite number `b`.
pub open spec fn has_int_value(b: u64, v: int) -> bool {
    enc_is_finite(b) && scaled(b) == v * pow2(1074)
}

/// `n / 2^k` rounded to the nearest integer, ties to even.
pub open spec fn rne_shr(n: nat, k: nat) -> nat {
    if k == 0 {
        n
    } else {
        let q = n / pow2(k);
        let r = n % pow2(k);
        let h = pow2((k - 1) as nat);
        if r > h || (r == h && q % 2 == 1) {
            q + 1
        } else {
            q
        }
    }
}

/// The number of bits of `n`.
pub open spec fn bitlen(n: nat) -> nat
    decreases n,
{
    if n == 0 {
        0
    } else {
        1 + bitlen(n / 2)
    }
}

/// `m` rounded to 53 significant bits, ties to even: the binary64 number
/// nearest to the integer `m`.
pub open spec fn round53(m: nat) -> nat {
    if bitlen(m) <= 53 {
        m
    } else {
        let k = (bitlen(m) - 53) as nat;
        rne_shr(m, k) * pow2(k)
    }
}

/// The binary64 number nearest to the integer `n`, ties to even.
pub open spec fn round_int(n: int) -> int {
    if n < 0 {
        -round53((-n) as nat)
    } else {
        round53(n as nat) as int
    }
}

// ---------------------------------------------------------------------------
// Reading and writing the fields

/// Splits an encoding into sign, biased exponent and fraction.
pub fn fields(b: u64) -> (r: (bool, u64, u64))
    ensures
        r.0 == sign_bit(b),
        r.1 == exp_field(b),
        r.2 == frac_field(b),
{
    let s = (b >> 63u64) == 1;
    let e = (b >> 52u64) & 0x7ff;
    let f = b & 0xf_ffff_ffff_ffff;
    assert(s == (b >= 0x8000_0000_0000_0000u64) && e == (b / 0x10_0000_0000_0000) % 0x800 && f == b
        % 0x10_0000_0000_0000) by (bit_vector)
        requires
            s == ((b >> 63u64) == 1),
            e == (b >> 52u64) & 0x7ff,
            f == b & 0xf_ffff_ffff_ffff,
    ;
    (s, e, f)
}

/// Builds an encoding from sign, biased exponent and fraction.
pub fn assemble(neg: bool, e: u64, f: u64) -> (b: u64)
    requires
        e < 0x800,
        f < two52(),
    ensures
        sign_bit(b) == neg,
        exp_field(b) == e,
        frac_field(b) == f,
{
    let s: u64 = if neg {
        1
    } else {
        0
    };
    let b = (s << 63u64) | (e << 52u64) | f;
    assert(((b >= 0x8000_0000_0000_0000u64) == (s == 1)) && (b / 0x10_0000_0000_0000) % 0x800 == e
        && b % 0x10_0000_0000_0000 == f) by (bit_vector)
        requires
            s < 2,
            e < 0x800,
            f < 0x10_0000_0000_0000,
            b == (s << 63u64) | (e << 52u64) | f,
    ;
    b
}

/// Two encodings with the same fields are the same.
pub proof fn lemma_fields_determine(a: u64, b: u64)
    requires
        sign_bit(a) == sign_bit(b),
        exp_field(a) == exp_field(b),
        frac_field(a) == frac_field(b),
    ensures
        a == b,
{
    assert(a == b) by (bit_vector)
        requires
            (a >= 0x8000_0000_0000_0000u64) == (b >= 0x8000_0000_0000_0000u64),
            (a / 0x10_0000_0000_0000) % 0x800 == (b / 0x10_0000_0000_0000) % 0x800,
            a % 0x10_0000_0000_0000 == b % 0x10_0000_0000_0000,
    ;
}

// ---------------------------------------------------------------------------
// Rounding

/// `n / 2^k` rounded to nearest, ties to even.
pub fn rne_shr_u64(n: u64, k: u64) -> (r: u64)
    requires
        k < 64,
    ensures
        r == rne_shr(n as nat, k as nat),
{
    if k == 0 {
        return n;
    }
    let q = n >> k;
    proof {
        lemma_pow2_pos(k as nat);
        lemma_u64_pow2_no_overflow(k as nat);
        lemma_u64_shl_is_mul(1, k);
    }
    let mask: u64 = (1u64 << k) - 1;
    let r = n & mask;
    let h: u64 = 1u64 << (k - 1);
    proof {
        lemma_u64_shr_is_div(n, k);
        lemma_pow2_pos(k as nat);
        lemma_u64_pow2_no_overflow(k as nat);
        lemma_u64_pow2_no_overflow((k - 1) as nat);
        lemma_u64_shl_is_mul(1, k);
        lemma_u64_shl_is_mul(1, (k - 1) as u64);
        assert(mask == low_bits_mask(k as nat)) by {
            lemma_low_bits_mask_values();
            assert(low_bits_mask(k as nat) == pow2(k as nat) - 1);
        }
        lemma_u64_low_bits_mask_is_mod(n, k as nat);
        lemma_fundamental_div_mod(n as int, pow2(k as nat) as int);
        lemma_div_pos_is_pos(n as int, pow2(k as nat) as int);
        assert(q <= n);
        if k >= 1 {
            lemma_pow2_unfold(k as nat);
        }
        assert(q < 0xffff_ffff_ffff_ffffu64) by {
            lemma_div_is_ordered_by_denominator(n as int, 2, pow2(k as nat) as int);
            lemma_pow2_strictly_increases(0, k as nat);
        }
    }
    if r > h || (r == h && q % 2 == 1) {
        q + 1
    } else {
        q
    }
}

/// Dividing `a * 2^s` by `2^k`, for `s <= k`.
pub proof fn lemma_div_mod_shifted(a: nat, s: nat, k: nat)
    requires
        s <= k,
    ensures
        (a * pow2(s)) / pow2(k) == a / pow2((k - s) as nat),
        (a * pow2(s)) % pow2(k) == (a % pow2((k - s) as nat)) * pow2(s),
{
    let t = (k - s) as nat;
    let d = pow2(t);
    let ps = pow2(s);
    lemma_pow2_pos(t);
    lemma_pow2_pos(s);
    lemma_pow2_adds(t, s);
    assert(pow2(k) == d * ps);
    let q = a / d;
    let r = a % d;
    lemma_fundamental_div_mod(a as int, d as int);
    lemma_mod_bound(a as int, d as int);
    assert(a * ps == q * (d * ps) + r * ps) by {
        assert(a == d * q + r);
        lemma_mul_is_commutative(d as int, q as int);
        lemma_mul_is_distributive_add_other_way(ps as int, (q * d) as int, r as int);
        lemma_mul_is_associative(q as int, d as int, ps as int);
    }
    assert(r * ps < d * ps) by {
        lemma_mul_strict_inequality(r as int, d as int, ps as int);
    }
    lemma_fundamental_div_mod_converse(
        (a * ps) as int,
        (d * ps) as int,
        q as int,
        (r * ps) as int,
    );
}

/// Shifting left by `s` before rounding away `k` bits is rounding away
/// `k - s` bits.
pub proof fn lemma_rne_shr_shifted(a: nat, s: nat, k: nat)
    requires
        s < k,
    ensures
        rne_shr(a * pow2(s), k) == rne_shr(a, (k - s) as nat),
{
    let t = (k - s) as nat;
    let ps = pow2(s);
    let h = pow2((t - 1) as nat);
    lemma_pow2_pos(s);
    lemma_div_mod_shifted(a, s, k);
    let r = a % pow2(t);
    assert((a * ps) % pow2(k) == r * ps);
    assert(pow2((k - 1) as nat) == h * ps) by {
        lemma_pow2_adds((t - 1) as nat, s);
        assert((t - 1) as nat + s == (k - 1) as nat);
    }
    assert((r * ps > h * ps) == (r > h) && (r * ps == h * ps) == (r == h)) by (nonlinear_arith)
        requires
            ps > 0,
    ;
}

/// Rounding never goes past the next multiple.
pub proof fn lemma_rne_shr_bounds(n: nat, k: nat)
    ensures
        n / pow2(k) <= rne_shr(n, k) <= n / pow2(k) + 1,
        k == 0 ==> rne_shr(n, k) == n,
{
    lemma_pow2_pos(k);
    if k == 0 {
        lemma2_to64();
        lemma_div_basics(n as int);
        assert(n / pow2(k) == n);
    } else {
        let q = n / pow2(k);
        assert(rne_shr(n, k) == q || rne_shr(n, k) == q + 1);
    }
}

/// Powers of two at the edges of `u64` and `u128`.
pub proof fn lemma_pow2_big()
    ensures
        pow2(64) == 0x1_0000_0000_0000_0000,
        pow2(127) == 0x8000_0000_0000_0000_0000_0000_0000_0000,
        pow2(128) == 0x1_0000_0000_0000_0000_0000_0000_0000_0000,
{
    lemma2_to64();
    lemma2_to64_rest();
    lemma_pow2_adds(64, 63);
    lemma_pow2_adds(64, 64);
}

/// `2^k`.
pub fn pow2_u128(k: u64) -> (r: u128)
    requires
        k < 128,
    ensures
        r == pow2(k as nat),
{
    proof {
        lemma_pow2_big();
    }
    if k < 64 {
        proof {
            lemma_u64_pow2_no_overflow(k as nat);
            lemma_u64_shl_is_mul(1, k);
        }
        (1u64 << k) as u128
    } else {
        proof {
            lemma_u64_pow2_no_overflow((k - 64) as nat);
            lemma_u64_shl_is_mul(1, (k - 64) as u64);
            lemma_pow2_adds((k - 64) as nat, 64);
            lemma_pow2_strictly_increases((k - 64) as nat, 64);
            lemma_mul_strict_inequality(pow2((k - 64) as nat) as int, pow2(64) as int, pow2(64) as int);
        }
        ((1u64 << (k - 64)) as u128) * 0x1_0000_0000_0000_0000u128
    }
}

// ---------------------------------------------------------------------------
// Bit length

pub proof fn lemma_bitlen_bounds(n: nat)
    requires
        n > 0,
    ensures
        bitlen(n) >= 1,
        pow2((bitlen(n) - 1) as nat) <= n < pow2(bitlen(n)),
    decreases n,
{
    reveal_with_fuel(bitlen, 2);
    if n == 1 {
        assert(bitlen(1) == 1);
        lemma2_to64();
    } else {
        lemma_bitlen_bounds(n / 2);
        let b = bitlen(n / 2);
        lemma_pow2_unfold(b);
        lemma_pow2_unfold(bitlen(n));
        if b >= 1 {
            lemma_pow2_unfold((bitlen(n) - 1) as nat);
        }
    }
}

proof fn lemma_bitlen_leading_zeros(n: u64)
    ensures
        bitlen(n as nat) == 64 - vstd::std_specs::bits::u64_leading_zeros(n),
    decreases n,
{
    reveal(vstd::std_specs::bits::u64_leading_zeros);
    if n != 0 {
        lemma_bitlen_leading_zeros(n / 2);
    }
}

/// The number of bits of `n`.
pub fn bit_length(n: u64) -> (r: u32)
    ensures
        r == bitlen(n as nat),
        r <= 64,
{
    let z = n.leading_zeros();
    proof {
        lemma_bitlen_leading_zeros(n);
        vstd::std_specs::bits::axiom_u64_leading_zeros(n);
    }
    64 - z
}


// ---------------------------------------------------------------------------
// Order

/// The position of a number other than NaN on the number line: its value
/// times 2^1074, with the infinities beyond every finite number.
pub open spec fn order_key(b: u64) -> int {
    if enc_is_infinite(b) {
        if sign_bit(b) {
            -pow2(2100)
        } else {
            pow2(2100) as int
        }
    } else {
        scaled(b)
    }
}

/// `a < b` for binary64 numbers; false where either is NaN.
pub open spec fn enc_lt(a: u64, b: u64) -> bool {
    !enc_is_nan(a) && !enc_is_nan(b) && order_key(a) < order_key(b)
}

/// `a == b` for binary64 numbers (`-0 == +0`); false where either is NaN.
pub open spec fn enc_eq(a: u64, b: u64) -> bool {
    !enc_is_nan(a) && !enc_is_nan(b) && order_key(a) == order_key(b)
}

/// `a <= b` for binary64 numbers; false where either is NaN.
pub open spec fn enc_le(a: u64, b: u64) -> bool {
    !enc_is_nan(a) && !enc_is_nan(b) && order_key(a) <= order_key(b)
}

/// The magnitude of a number other than NaN on the number line.
pub open spec fn magnitude_key(b: u64) -> nat {
    if enc_is_infinite(b) {
        pow2(2100)
    } else {
        units(b)
    }
}

pub proof fn lemma_units_bounds(b: u64)
    requires
        enc_is_finite(b),
    ensures
        units(b) < two52() * pow2(exp_field(b)),
        exp_field(b) >= 1 ==> two52() * pow2((exp_field(b) - 1) as nat) <= units(b),
        (exp_field(b) != 0 || frac_field(b) != 0) ==> units(b) > 0,
        (exp_field(b) == 0 && frac_field(b) == 0) ==> units(b) == 0,
{
    lemma2_to64();
    lemma2_to64_rest();
    let sh = unit_shift(b);
    lemma_pow2_pos(sh);
    if exp_field(b) == 0 {
        assert(pow2(0) == 1);
        lemma_mul_basics(frac_field(b) as int);
        lemma_mul_basics(two52() as int);
    } else {
        lemma_pow2_unfold(exp_field(b));
        assert(significand(b) < 2 * two52());
        lemma_mul_strict_inequality(significand(b) as int, (2 * two52()) as int, pow2(sh) as int);
        lemma_mul_is_associative(two52() as int, 2, pow2(sh) as int);
        lemma_mul_inequality(two52() as int, significand(b) as int, pow2(sh) as int);
    }
    if significand(b) > 0 {
        lemma_mul_strictly_positive(significand(b) as int, pow2(sh) as int);
    }
}

/// The fields order the magnitudes: a larger exponent field, or the same
/// exponent field and a larger fraction, is a larger magnitude.
pub proof fn lemma_fields_order(a: u64, b: u64)
    requires
        !enc_is_nan(a),
        !enc_is_nan(b),
        exp_field(a) < exp_field(b) || (exp_field(a) == exp_field(b) && frac_field(a) < frac_field(
            b,
        )),
    ensures
        magnitude_key(a) < magnitude_key(b),
{
    lemma_pow2_pos(2100);
    if enc_is_infinite(b) {
        lemma_units_bounds(a);
        lemma_pow2_strictly_increases(exp_field(a), 2048);
        lemma_pow2_adds(52, 2048);
        assert(two52() == pow2(52)) by {
            lemma2_to64_rest();
        }
        lemma_mul_strict_inequality(pow2(exp_field(a)) as int, pow2(2048) as int, two52() as int);
        lemma_mul_is_commutative(pow2(exp_field(a)) as int, two52() as int);
        lemma_mul_is_commutative(pow2(2048) as int, two52() as int);
    } else if exp_field(a) < exp_field(b) {
        lemma_units_bounds(a);
        lemma_units_bounds(b);
        let ea = exp_field(a);
        let eb = exp_field(b);
        if ea < (eb - 1) as nat {
            lemma_pow2_strictly_increases(ea, (eb - 1) as nat);
        }
        lemma_mul_inequality(pow2(ea) as int, pow2((eb - 1) as nat) as int, two52() as int);
        lemma_mul_is_commutative(pow2(ea) as int, two52() as int);
        lemma_mul_is_commutative(pow2((eb - 1) as nat) as int, two52() as int);
    } else {
        lemma_pow2_pos(unit_shift(a));
        lemma_mul_strict_inequality(
            significand(a) as int,
            significand(b) as int,
            pow2(unit_shift(a)) as int,
        );
    }
}

/// Zero, and only zero, has magnitude zero.
pub proof fn lemma_zero_magnitude(b: u64)
    requires
        !enc_is_nan(b),
    ensures
        (magnitude_key(b) == 0) == (exp_field(b) == 0 && frac_field(b) == 0),
{
    lemma_pow2_pos(2100);
    if !enc_is_infinite(b) {
        lemma_units_bounds(b);
    }
}

/// `a < b` for binary64 numbers.
pub fn lt_enc(a: u64, b: u64) -> (r: bool)
    ensures
        r == enc_lt(a, b),
{
    let (sa, ea, fa) = fields(a);
    let (sb, eb, fb) = fields(b);
    if (ea == 0x7ff && fa != 0) || (eb == 0x7ff && fb != 0) {
        return false;
    }
    proof {
        lemma_zero_magnitude(a);
        lemma_zero_magnitude(b);
        if ea < eb || (ea == eb && fa < fb) {
            lemma_fields_order(a, b);
        }
        if eb < ea || (ea == eb && fb < fa) {
            lemma_fields_order(b, a);
        }
        if ea == eb && fa == fb {
            assert(magnitude_key(a) == magnitude_key(b));
        }
        assert(order_key(a) == (if sa { -magnitude_key(a) } else { magnitude_key(a) as int }));
        assert(order_key(b) == (if sb { -magnitude_key(b) } else { magnitude_key(b) as int }));
    }
    let a_less_mag = ea < eb || (ea == eb && fa < fb);
    let b_less_mag = eb < ea || (ea == eb && fb < fa);
    let zeros = ea == 0 && fa == 0 && eb == 0 && fb == 0;
    if zeros {
        false
    } else if !sa && !sb {
        a_less_mag
    } else if sa && sb {
        b_less_mag
    } else {
        sa
    }
}

/// `a <= b` for binary64 numbers.
pub fn le_enc(a: u64, b: u64) -> (r: bool)
    ensures
        r == enc_le(a, b),
{
    let (_sa, ea, fa) = fields(a);
    let (_sb, eb, fb) = fields(b);
    if (ea == 0x7ff && fa != 0) || (eb == 0x7ff && fb != 0) {
        return false;
    }
    !lt_enc(b, a)
}

/// `a == b` for binary64 numbers.
pub fn eq_enc(a: u64, b: u64) -> (r: bool)
    ensures
        r == enc_eq(a, b),
{
    let (_sa, ea, fa) = fields(a);
    let (_sb, eb, fb) = fields(b);
    if (ea == 0x7ff && fa != 0) || (eb == 0x7ff && fb != 0) {
        return false;
    }
    !lt_enc(a, b) && !lt_enc(b, a)
}

} // verus!
