//! Rounding to binary64.
//!
//! Magnitudes are counted in units of 2^-1074, the smallest subnormal, as in
//! `ieee`.  A magnitude `m * 2^e` (for any integer `e`) is rounded to the
//! nearest binary64 magnitude, ties to even: to 53 significant bits, but to
//! no bit below the unit.  `round_enc` gives the encoding of the result, an
//! infinity where the rounded magnitude is beyond the largest finite number.
use crate::ieee::{
    assemble, bit_length, bitlen, enc_is_finite, enc_is_infinite, exp_field, frac_field, lemma_bitlen_bounds,
    lemma_fields_determine, lemma_pow2_big, lemma_rne_shr_bounds, lemma_rne_shr_shifted, pow2_u128, rne_shr, sign_bit, significand, two52,
    unit_shift, units,
};
use vstd::arithmetic::div_mod::*;
use vstd::arithmetic::mul::*;
use vstd::arithmetic::power2::*;
use vstd::bits::*;
use vstd::prelude::*;

verus! {

/// The weight, as a power of two above the unit, of the last bit kept when
/// the magnitude `m * 2^e` is rounded to binary64: the 53 leading bits are
/// kept, but no bit below the unit.
pub open spec fn grid(m: nat, e: int) -> nat {
    if bitlen(m) + e > 53 {
        (bitlen(m) + e - 53) as nat
    } else {
        0
    }
}

/// The binary64 magnitude nearest to `m * 2^e`, ties to even, in units;
/// it may lie beyond the largest finite number (see `overflows`).
pub open spec fn rnd(m: nat, e: int) -> nat {
    let g = grid(m, e);
    if e <= g {
        rne_shr(m, (g - e) as nat) * pow2(g)
    } else {
        m * pow2(e as nat)
    }
}

/// A rounded magnitude of 2^1024 or more stands for an infinity.
pub open spec fn overflows(r: nat) -> bool {
    r >= pow2(2098)
}

/// The encoding with the given sign, exponent field and fraction field.
pub open spec fn enc_parts(neg: bool, e: nat, f: nat) -> u64 {
    ((if neg {
        0x8000_0000_0000_0000nat
    } else {
        0nat
    }) + e * two52() + f) as u64
}

/// The infinity of the given sign.
pub open spec fn infinity(neg: bool) -> u64 {
    enc_parts(neg, 0x7ff, 0)
}

/// The encoding of the binary64 number with sign `neg` and the magnitude
/// `r` (in units), where `r` is a binary64 magnitude.
pub open spec fn enc_of(neg: bool, r: nat) -> u64 {
    if r < two52() {
        enc_parts(neg, 0, r)
    } else {
        let k = (bitlen(r) - 53) as nat;
        enc_parts(neg, k + 1, (r / pow2(k) - two52()) as nat)
    }
}

/// The encoding of the binary64 number nearest to `m * 2^e` units, with sign
/// `neg`: an infinity where the rounded magnitude overflows.
pub open spec fn round_enc(neg: bool, m: nat, e: int) -> u64 {
    if overflows(rnd(m, e)) {
        infinity(neg)
    } else {
        enc_of(neg, rnd(m, e))
    }
}

// ---------------------------------------------------------------------------
// Facts about the encoding

/// The fields of an encoding built from fields.
pub proof fn lemma_enc_parts(neg: bool, e: nat, f: nat)
    requires
        e < 0x800,
        f < two52(),
    ensures
        sign_bit(enc_parts(neg, e, f)) == neg,
        exp_field(enc_parts(neg, e, f)) == e,
        frac_field(enc_parts(neg, e, f)) == f,
{
    let n: nat = if neg {
        1
    } else {
        0
    };
    let v: nat = n * 0x8000_0000_0000_0000 + e * two52() + f;
    assert(v < 0x1_0000_0000_0000_0000) by (nonlinear_arith)
        requires
            v == n * 0x8000_0000_0000_0000 + e * two52() + f,
            n <= 1,
            e < 0x800,
            f < two52(),
            two52() == 0x10_0000_0000_0000,
    ;
    assert(enc_parts(neg, e, f) as nat == v);
    let hi: nat = n * 0x800 + e;
    assert(v == two52() * hi + f) by (nonlinear_arith)
        requires
            v == n * 0x8000_0000_0000_0000 + e * two52() + f,
            hi == n * 0x800 + e,
            two52() == 0x10_0000_0000_0000,
    ;
    lemma_fundamental_div_mod_converse(v as int, two52() as int, hi as int, f as int);
    lemma_fundamental_div_mod_converse(hi as int, 0x800, n as int, e as int);
    assert((v >= 0x8000_0000_0000_0000) == neg) by (nonlinear_arith)
        requires
            v == n * 0x8000_0000_0000_0000 + e * two52() + f,
            n == (if neg {
                1nat
            } else {
                0nat
            }),
            e < 0x800,
            f < two52(),
            two52() == 0x10_0000_0000_0000,
    ;
}

/// An encoding is the encoding built from its own fields.
pub proof fn lemma_enc_parts_of(b: u64)
    ensures
        b == enc_parts(sign_bit(b), exp_field(b), frac_field(b)),
{
    lemma_mod_bound((b as nat / two52()) as int, 0x800);
    lemma_mod_bound(b as int, two52() as int);
    lemma_enc_parts(sign_bit(b), exp_field(b), frac_field(b));
    lemma_fields_determine(b, enc_parts(sign_bit(b), exp_field(b), frac_field(b)));
}

// ---------------------------------------------------------------------------
// Bit length

/// Powers of two grow with the exponent.
pub proof fn lemma_pow2_le(a: nat, b: nat)
    requires
        a <= b,
    ensures
        pow2(a) <= pow2(b),
{
    if a < b {
        lemma_pow2_strictly_increases(a, b);
    }
}

/// A number in `2^(n-1) .. 2^n` has `n` bits.
pub proof fn lemma_bitlen_unique(m: nat, n: nat)
    requires
        n >= 1,
        pow2((n - 1) as nat) <= m < pow2(n),
    ensures
        bitlen(m) == n,
{
    lemma_pow2_pos((n - 1) as nat);
    lemma_bitlen_bounds(m);
    let b = bitlen(m);
    if b < n {
        lemma_pow2_le(b, (n - 1) as nat);
    }
    if b > n {
        lemma_pow2_le(n, (b - 1) as nat);
    }
}

/// A number of at least `2^(n-1)` has at least `n` bits.
pub proof fn lemma_bitlen_unique_ge(m: nat, n: nat)
    requires
        n >= 1,
        pow2((n - 1) as nat) <= m,
    ensures
        bitlen(m) >= n,
{
    lemma_pow2_pos((n - 1) as nat);
    lemma_bitlen_bounds(m);
    if bitlen(m) < n {
        lemma_pow2_le(bitlen(m), (n - 1) as nat);
    }
}

/// `q * 2^k` has `k` more bits than `q`.
pub proof fn lemma_bitlen_mul_pow2(q: nat, k: nat)
    requires
        q > 0,
    ensures
        bitlen(q * pow2(k)) == bitlen(q) + k,
{
    lemma_bitlen_bounds(q);
    let b = bitlen(q);
    lemma_pow2_pos(k);
    lemma_pow2_adds((b - 1) as nat, k);
    lemma_pow2_adds(b, k);
    lemma_mul_inequality(pow2((b - 1) as nat) as int, q as int, pow2(k) as int);
    lemma_mul_strict_inequality(q as int, pow2(b) as int, pow2(k) as int);
    lemma_bitlen_unique(q * pow2(k), b + k);
}

/// The number of bits of `m`.
pub fn bit_length128(m: u128) -> (r: u32)
    ensures
        r == bitlen(m as nat),
        r <= 128,
{
    proof {
        lemma_pow2_big();
    }
    let hi: u64 = (m / 0x1_0000_0000_0000_0000u128) as u64;
    if hi != 0 {
        let b = bit_length(hi);
        proof {
            lemma_bitlen_bounds(hi as nat);
            let lo = m % 0x1_0000_0000_0000_0000u128;
            lemma_fundamental_div_mod(m as int, pow2(64) as int);
            lemma_pow2_adds((b - 1) as nat, 64);
            lemma_pow2_adds(b as nat, 64);
            lemma_mul_inequality(pow2((b - 1) as nat) as int, hi as int, pow2(64) as int);
            lemma_mul_inequality((hi + 1) as int, pow2(b as nat) as int, pow2(64) as int);
            lemma_bitlen_unique(m as nat, (b + 64) as nat);
        }
        64 + b
    } else {
        proof {
            lemma_fundamental_div_mod(m as int, pow2(64) as int);
        }
        bit_length(m as u64)
    }
}

// ---------------------------------------------------------------------------
// Rounding away low bits

/// `n / 2^k` rounded to nearest, ties to even.
pub fn rne_shr_u128(n: u128, k: u64) -> (r: u128)
    requires
        k < 128,
    ensures
        r == rne_shr(n as nat, k as nat),
{
    if k == 0 {
        return n;
    }
    let p = pow2_u128(k);
    proof {
        lemma_pow2_pos(k as nat);
    }
    let q = n / p;
    let r = n % p;
    let h = p / 2;
    proof {
        lemma_pow2_unfold(k as nat);
        lemma_pow2_pos((k - 1) as nat);
        assert(h == pow2((k - 1) as nat));
        lemma_div_is_ordered_by_denominator(n as int, 2, p as int);
        lemma_pow2_big();
    }
    if r > h || (r == h && q % 2 == 1) {
        q + 1
    } else {
        q
    }
}

/// Rounding away at least all bits of a number gives 0 or 1.
pub proof fn lemma_rne_shr_small(n: nat, k: nat)
    requires
        k >= 1,
        n < pow2(k),
    ensures
        rne_shr(n, k) == (if n > pow2((k - 1) as nat) {
            1nat
        } else {
            0nat
        }),
{
    lemma_pow2_pos(k);
    lemma_small_div_converse(n, k);
}

proof fn lemma_small_div_converse(n: nat, k: nat)
    requires
        n < pow2(k),
    ensures
        n / pow2(k) == 0,
        n % pow2(k) == n,
{
    lemma_pow2_pos(k);
    lemma_fundamental_div_mod_converse(n as int, pow2(k) as int, 0, n as int);
}

/// `m / 2^sh` lies in `2^(l-1-sh) .. 2^(l-sh)` where `m` lies in
/// `2^(l-1) .. 2^l`.
proof fn lemma_div_pow2_bounds(m: nat, l: nat, sh: nat)
    requires
        l >= 1,
        sh < l,
        pow2((l - 1) as nat) <= m < pow2(l),
    ensures
        pow2((l - 1 - sh) as nat) <= m / pow2(sh) < pow2((l - sh) as nat),
{
    lemma_pow2_pos(sh);
    lemma_pow2_adds((l - 1 - sh) as nat, sh);
    lemma_pow2_adds((l - sh) as nat, sh);
    lemma_div_is_ordered(pow2((l - 1) as nat) as int, m as int, pow2(sh) as int);
    lemma_div_by_multiple(pow2((l - 1 - sh) as nat) as int, pow2(sh) as int);
    lemma_multiply_divide_lt(m as int, pow2(sh) as int, pow2((l - sh) as nat) as int);
    lemma_mul_is_commutative(pow2(sh) as int, pow2((l - sh) as nat) as int);
}

/// `m / 2^sh` lies in `2^(l-1-sh) .. 2^(l-sh)` where `m` lies in
/// `2^(l-1) .. 2^l`.
pub proof fn lemma_div_pow2_bounds_pub(m: nat, l: nat, sh: nat)
    requires
        l >= 1,
        sh < l,
        pow2((l - 1) as nat) <= m < pow2(l),
    ensures
        pow2((l - 1 - sh) as nat) <= m / pow2(sh) < pow2((l - sh) as nat),
{
    lemma_div_pow2_bounds(m, l, sh);
}

/// Rounding zero gives zero.
pub proof fn lemma_rnd_zero(e: int)
    ensures
        rnd(0, e) == 0,
{
    assert(bitlen(0) == 0);
    let g = grid(0, e);
    if e <= g {
        let k = (g - e) as nat;
        lemma_pow2_pos(k);
        if k > 0 {
            lemma_pow2_pos((k - 1) as nat);
        }
        assert(rne_shr(0, k) == 0);
    }
}

/// The encoding of the binary64 number nearest to `m * 2^e` units, with
/// sign `neg`.
#[verifier::spinoff_prover]
pub fn round_pack(neg: bool, m: u128, e: i64) -> (b: u64)
    requires
        -8000 <= e <= 8000,
    ensures
        b == round_enc(neg, m as nat, e as int),
{
    proof {
        lemma_pow2_big();
        lemma2_to64();
        lemma2_to64_rest();
    }
    if m == 0 {
        let b = assemble(neg, 0, 0);
        proof {
            lemma_rnd_zero(e as int);
            lemma_pow2_pos(2098);
            lemma_enc_parts(neg, 0, 0);
            lemma_fields_determine(b, enc_parts(neg, 0, 0));
        }
        return b;
    }
    let len = bit_length128(m);
    let l: i64 = len as i64;
    let g: i64 = if l + e > 53 {
        l + e - 53
    } else {
        0
    };
    proof {
        lemma_bitlen_bounds(m as nat);
        assert(g == grid(m as nat, e as int));
    }
    let q: u128;
    if e <= g {
        let sh: i64 = g - e;
        if sh < 128 {
            q = rne_shr_u128(m, sh as u64);
        } else if sh == 128 && m > 0x8000_0000_0000_0000_0000_0000_0000_0000u128 {
            q = 1;
        } else {
            q = 0;
        }
        proof {
            let shn = sh as nat;
            lemma_pow2_pos(shn);
            lemma_rne_shr_bounds(m as nat, shn);
            if sh >= 128 {
                lemma_pow2_le(128, shn);
                lemma_pow2_le(127, (shn - 1) as nat);
                lemma_rne_shr_small(m as nat, shn);
                if sh > 128 {
                    lemma_pow2_le(128, (shn - 1) as nat);
                }
            }
            assert(q == rne_shr(m as nat, shn));
            if g > 0 {
                lemma_div_pow2_bounds(m as nat, l as nat, shn);
            } else {
                lemma_pow2_le(l as nat, (53 + sh) as nat);
                lemma_pow2_adds(53, shn);
                lemma_multiply_divide_lt(m as int, pow2(shn) as int, pow2(53) as int);
                lemma_mul_is_commutative(pow2(shn) as int, pow2(53) as int);
            }
            assert(q <= pow2(53));
            assert(g > 0 ==> q >= pow2(52));
            assert(rnd(m as nat, e as int) == q * pow2(g as nat));
        }
    } else {
        let sh: i64 = e - g;
        proof {
            lemma_pow2_le(l as nat, 53);
            lemma_pow2_pos(sh as nat);
            lemma_pow2_adds(l as nat, sh as nat);
            lemma_mul_strict_inequality(m as int, pow2(l as nat) as int, pow2(sh as nat) as int);
            lemma_pow2_le((l + sh) as nat, 53);
        }
        q = m * pow2_u128(sh as u64);
        proof {
            lemma_bitlen_mul_pow2(m as nat, sh as nat);
            lemma_bitlen_bounds(q as nat);
            if bitlen(q as nat) == 53 {
                assert(q >= pow2(52));
            }
            lemma_pow2_le(bitlen(q as nat), 53);
            lemma_pow2_adds(sh as nat, g as nat);
            lemma_mul_is_associative(m as int, pow2(sh as nat) as int, pow2(g as nat) as int);
            assert(q < pow2(53));
            assert(g > 0 ==> q >= pow2(52));
            assert(rnd(m as nat, e as int) == q * pow2(g as nat));
        }
    }
    let big: bool = q == 0x20_0000_0000_0000u128;
    let q2: u128 = if big {
        0x10_0000_0000_0000
    } else {
        q
    };
    let g2: i64 = if big {
        g + 1
    } else {
        g
    };
    proof {
        let r = rnd(m as nat, e as int);
        if big {
            lemma_pow2_adds(1, g as nat);
            lemma_mul_is_associative(pow2(52) as int, 2, pow2(g as nat) as int);
        }
        assert(r == q2 * pow2(g2 as nat));
        assert(g2 > 0 ==> q2 >= two52());
        assert(q2 < pow2(53));
    }
    if q2 < 0x10_0000_0000_0000u128 {
        let b = assemble(neg, 0, q2 as u64);
        proof {
            let r = rnd(m as nat, e as int);
            assert(g2 == 0);
            assert(pow2(0) == 1);
            assert(r == q2 * pow2(0));
            assert(r == q2);
            lemma_pow2_le(52, 2098);
            lemma_enc_parts(neg, 0, r);
            lemma_fields_determine(b, enc_parts(neg, 0, r));
        }
        b
    } else {
        proof {
            let r = rnd(m as nat, e as int);
            let gn = g2 as nat;
            lemma_bitlen_unique(q2 as nat, 53);
            lemma_bitlen_mul_pow2(q2 as nat, gn);
            lemma_pow2_pos(gn);
            lemma_div_by_multiple(q2 as int, pow2(gn) as int);
            lemma_pow2_adds(52, gn);
            lemma_pow2_adds(53, gn);
            lemma_mul_inequality(pow2(52) as int, q2 as int, pow2(gn) as int);
            lemma_mul_strict_inequality(q2 as int, pow2(53) as int, pow2(gn) as int);
            lemma_mul_is_commutative(pow2(52) as int, pow2(gn) as int);
            lemma_pow2_le(52, 52 + gn);
            assert(r >= two52());
            assert(enc_of(neg, r) == enc_parts(neg, gn + 1, (q2 - two52()) as nat));
            if g2 >= 2046 {
                lemma_pow2_le(2098, 52 + gn);
            } else {
                lemma_pow2_le(53 + gn, 2098);
            }
        }
        if g2 >= 2046 {
            let b = assemble(neg, 0x7ff, 0);
            proof {
                lemma_enc_parts(neg, 0x7ff, 0);
                lemma_fields_determine(b, infinity(neg));
            }
            b
        } else {
            let b = assemble(neg, (g2 + 1) as u64, (q2 - 0x10_0000_0000_0000u128) as u64);
            proof {
                lemma_enc_parts(neg, (g2 + 1) as nat, (q2 - two52()) as nat);
                lemma_fields_determine(b, enc_parts(neg, (g2 + 1) as nat, (q2 - two52()) as nat));
            }
            b
        }
    }
}

// ---------------------------------------------------------------------------
// Facts about rounding

/// Every finite number is the encoding of its own sign and magnitude, and
/// its magnitude does not overflow.
pub proof fn lemma_enc_of_units(b: u64)
    requires
        enc_is_finite(b),
    ensures
        !overflows(units(b)),
        enc_of(sign_bit(b), units(b)) == b,
{
    lemma2_to64();
    lemma2_to64_rest();
    lemma_enc_parts_of(b);
    let e = exp_field(b);
    let f = frac_field(b);
    lemma_mod_bound(b as int, two52() as int);
    if e == 0 {
        lemma_mul_basics(f as int);
        assert(units(b) == f);
        lemma_pow2_le(52, 2098);
    } else {
        let k = (e - 1) as nat;
        let sig = significand(b);
        assert(sig == f + two52());
        lemma_bitlen_unique(sig, 53);
        lemma_bitlen_mul_pow2(sig, k);
        lemma_pow2_pos(k);
        lemma_div_by_multiple(sig as int, pow2(k) as int);
        lemma_pow2_le(0, k);
        lemma_mul_inequality(1, pow2(k) as int, sig as int);
        lemma_mul_is_commutative(sig as int, pow2(k) as int);
        lemma_pow2_le(53 + k, 2098);
        lemma_pow2_adds(53, k);
        lemma_mul_strict_inequality(sig as int, pow2(53) as int, pow2(k) as int);
    }
}

/// A binary64 magnitude rounds to itself.
pub proof fn lemma_rnd_exact(b: u64)
    requires
        enc_is_finite(b),
    ensures
        rnd(units(b), 0) == units(b),
{
    let sig = significand(b);
    let k = unit_shift(b);
    lemma_rnd_shift(sig, 0, k);
    lemma2_to64();
    lemma2_to64_rest();
    lemma_pow2_pos(k);
    if sig > 0 {
        lemma_bitlen_bounds(sig);
        if bitlen(sig) > 53 {
            lemma_pow2_le(53, (bitlen(sig) - 1) as nat);
        }
    }
    let g = grid(sig, k as int);
    if (k as int) <= g {
        assert(rne_shr(sig, 0) == sig);
    }
}

/// Rounding away no more bits than were shifted in is exact.
pub proof fn lemma_rne_shr_exact(n: nat, k: nat, j: nat)
    requires
        j <= k,
    ensures
        rne_shr(n * pow2(k), j) == n * pow2((k - j) as nat),
{
    if j > 0 {
        let t = (k - j) as nat;
        lemma_pow2_pos(j);
        lemma_pow2_pos((j - 1) as nat);
        lemma_pow2_adds(t, j);
        lemma_mul_is_associative(n as int, pow2(t) as int, pow2(j) as int);
        lemma_mul_is_commutative((n * pow2(t)) as int, pow2(j) as int);
        lemma_fundamental_div_mod_converse(
            (n * pow2(k)) as int,
            pow2(j) as int,
            (n * pow2(t)) as int,
            0,
        );
    } else {
        assert(pow2(0) == 1) by {
            lemma2_to64();
        }
    }
}

/// Shifting the magnitude into the exponent does not change the rounding.
pub proof fn lemma_rnd_shift(m: nat, e: int, j: nat)
    ensures
        rnd(m * pow2(j), e) == rnd(m, e + j),
{
    lemma_pow2_pos(j);
    if m == 0 {
        lemma_rnd_zero(e);
        lemma_rnd_zero(e + j);
        return;
    }
    lemma_bitlen_mul_pow2(m, j);
    let g = grid(m, e + j);
    assert(grid(m * pow2(j), e) == g);
    if e <= g {
        let k = (g - e) as nat;
        if j < k {
            lemma_rne_shr_shifted(m, j, k);
        } else {
            lemma_rne_shr_exact(m, j, k);
            if j == k {
                assert(pow2(0) == 1) by {
                    lemma2_to64();
                }
                assert(rne_shr(m, 0) == m);
            } else {
                lemma_pow2_adds((j - k) as nat, g);
                lemma_mul_is_associative(m as int, pow2((j - k) as nat) as int, pow2(g) as int);
                assert((j - k) as nat + g == (e + j) as nat);
            }
        }
    } else {
        lemma_pow2_adds(j, e as nat);
        lemma_mul_is_associative(m as int, pow2(j) as int, pow2(e as nat) as int);
    }
}

/// `rne_shr` read from a quotient and a remainder.
pub proof fn lemma_rne_shr_decomp(n: nat, q: nat, r: nat, k: nat)
    requires
        k >= 1,
        r < pow2(k),
        n == q * pow2(k) + r,
    ensures
        rne_shr(n, k) == (if r > pow2((k - 1) as nat) || (r == pow2((k - 1) as nat) && q % 2 == 1) {
            q + 1
        } else {
            q
        }),
{
    lemma_pow2_pos(k);
    lemma_mul_is_commutative(q as int, pow2(k) as int);
    lemma_fundamental_div_mod_converse(n as int, pow2(k) as int, q as int, r as int);
}

/// The rounding of a magnitude with 53 + k bits keeps its 53 leading bits.
pub proof fn lemma_rnd_at(n: nat, q: nat, r: nat, k: nat)
    requires
        two52() <= q < pow2(53),
        r < pow2(k),
        n == q * pow2(k) + r,
    ensures
        grid(n, 0) == k,
        rnd(n, 0) == rne_shr(n, k) * pow2(k),
{
    lemma2_to64();
    lemma2_to64_rest();
    lemma_pow2_pos(k);
    lemma_pow2_adds(52, k);
    lemma_pow2_adds(53, k);
    lemma_mul_inequality(two52() as int, q as int, pow2(k) as int);
    lemma_mul_inequality((q + 1) as int, pow2(53) as int, pow2(k) as int);
    lemma_mul_is_distributive_add_other_way(pow2(k) as int, q as int, 1);
    lemma_mul_is_commutative(pow2(k) as int, q as int);
    lemma_mul_is_commutative(pow2(k) as int, (q + 1) as int);
    lemma_mul_basics(pow2(k) as int);
    assert(pow2(52 + k) <= n);
    assert(n < pow2(53 + k));
    lemma_bitlen_unique(n, 53 + k);
}

/// Rounding a magnitude read to at least 54 bits and a sticky bit: where
/// `x` has at least 54 bits, the bits `f` below `x * 2^t` matter to the
/// rounding only by whether they are zero.
pub proof fn lemma_sticky(x: nat, f: nat, t: nat, e: int)
    requires
        t >= 1,
        f < pow2(t),
        bitlen(x) >= 54,
    ensures
        rnd(x * pow2(t) + f, e) == rnd(
            2 * x + (if f > 0 {
                1nat
            } else {
                0nat
            }),
            e + t - 1,
        ),
{
    let s: nat = if f > 0 {
        1
    } else {
        0
    };
    let big = x * pow2(t) + f;
    let y = 2 * x + s;
    let l = bitlen(x);
    lemma2_to64();
    lemma_bitlen_bounds(x);
    lemma_pow2_pos(t);
    // bit lengths
    lemma_pow2_adds((l - 1) as nat, t);
    lemma_pow2_adds(l, t);
    lemma_mul_inequality(pow2((l - 1) as nat) as int, x as int, pow2(t) as int);
    lemma_mul_inequality((x + 1) as int, pow2(l) as int, pow2(t) as int);
    lemma_mul_is_distributive_add_other_way(pow2(t) as int, x as int, 1);
    lemma_mul_is_commutative(pow2(t) as int, x as int);
    lemma_mul_is_commutative(pow2(t) as int, (x + 1) as int);
    lemma_mul_basics(pow2(t) as int);
    lemma_bitlen_unique(big, l + t);
    lemma_pow2_unfold(l);
    lemma_pow2_unfold(l + 1);
    lemma_bitlen_unique(y, l + 1);
    let g = grid(big, e);
    assert(g == grid(y, e + t - 1));
    let k = (g - e - t) as nat;
    assert(k >= 1);
    let pk = pow2(k);
    lemma_pow2_pos(k);
    let q = x / pk;
    let r = x % pk;
    lemma_fundamental_div_mod(x as int, pk as int);
    lemma_mod_bound(x as int, pk as int);
    let u = pow2((t - 1) as nat);
    lemma_pow2_unfold(t);
    lemma_pow2_unfold(k);
    lemma_pow2_adds(k, t);
    lemma_pow2_adds(k, (t - 1) as nat);
    lemma_pow2_adds(k, 1);
    assert(pow2(k + t) == pk * pow2(t));
    assert(big == q * pow2(k + t) + (r * pow2(t) + f)) by (nonlinear_arith)
        requires
            big == x * pow2(t) + f,
            x == pk * q + r,
            pow2(k + t) == pk * pow2(t),
    ;
    assert(r * pow2(t) + f < pow2(k + t)) by (nonlinear_arith)
        requires
            r < pk,
            f < pow2(t),
            pow2(k + t) == pk * pow2(t),
    ;
    assert(y == q * pow2(k + 1) + (2 * r + s)) by (nonlinear_arith)
        requires
            y == 2 * x + s,
            x == pk * q + r,
            pow2(k + 1) == pk * 2,
    ;
    assert(2 * r + s < pow2(k + 1));
    lemma_rne_shr_decomp(big, q, r * pow2(t) + f, k + t);
    lemma_rne_shr_decomp(y, q, 2 * r + s, k + 1);
    assert((k + t - 1) as nat == k + (t - 1) as nat);
    assert(pow2((k + t - 1) as nat) == pk * u);
    assert(pow2((k + 1 - 1) as nat) == pk);
    // pk is even, so 2r and pk differ by 0 or by at least 2.
    let half = pow2((k - 1) as nat);
    assert(pk == 2 * half);
    assert((r * pow2(t) + f > pk * u) == (2 * r + s > pk) && (r * pow2(t) + f == pk * u) == (2 * r
        + s == pk)) by (nonlinear_arith)
        requires
            pow2(t) == 2 * u,
            u >= 1,
            f < 2 * u,
            s == (if f > 0 {
                1nat
            } else {
                0nat
            }),
            pk == 2 * half,
    ;
}

// ---------------------------------------------------------------------------
// The value of a rounded encoding

/// A rounded magnitude is a significand of at most 53 bits times a power of
/// two, with 53 bits where the power is above the unit.
pub proof fn lemma_rnd_form(m: nat, e: int) -> (r: (nat, nat))
    ensures
        rnd(m, e) == r.0 * pow2(r.1),
        r.0 < pow2(53),
        r.1 > 0 ==> two52() <= r.0,
{
    lemma2_to64();
    lemma2_to64_rest();
    if m == 0 {
        lemma_rnd_zero(e);
        lemma_mul_basics(pow2(0) as int);
        return (0, 0);
    }
    let l = bitlen(m);
    lemma_bitlen_bounds(m);
    let g = grid(m, e);
    let q: nat;
    if e <= g {
        let sh = (g - e) as nat;
        q = rne_shr(m, sh);
        lemma_pow2_pos(sh);
        lemma_rne_shr_bounds(m, sh);
        if g > 0 {
            lemma_div_pow2_bounds(m, l, sh);
        } else {
            lemma_pow2_le(l, 53 + sh);
            lemma_pow2_adds(53, sh);
            lemma_multiply_divide_lt(m as int, pow2(sh) as int, pow2(53) as int);
            lemma_mul_is_commutative(pow2(sh) as int, pow2(53) as int);
        }
    } else {
        let sh = (e - g) as nat;
        q = m * pow2(sh);
        lemma_pow2_le(l, 53);
        lemma_bitlen_mul_pow2(m, sh);
        lemma_bitlen_bounds(q);
        lemma_pow2_le(bitlen(q), 53);
        if bitlen(q) == 53 {
            assert(q >= pow2(52));
        }
        lemma_pow2_adds(sh, g);
        lemma_mul_is_associative(m as int, pow2(sh) as int, pow2(g) as int);
    }
    assert(q <= pow2(53));
    assert(g > 0 ==> q >= pow2(52));
    assert(rnd(m, e) == q * pow2(g));
    if q == pow2(53) {
        lemma_pow2_adds(1, g);
        lemma_mul_is_associative(pow2(52) as int, 2, pow2(g) as int);
        (two52(), g + 1)
    } else {
        (q, g)
    }
}

/// The encoding of a magnitude in the form of `lemma_rnd_form` is finite,
/// with that sign and that magnitude.
pub proof fn lemma_enc_of_value(neg: bool, q: nat, g: nat)
    requires
        q < pow2(53),
        g > 0 ==> two52() <= q,
        !overflows(q * pow2(g)),
    ensures
        enc_is_finite(enc_of(neg, q * pow2(g))),
        sign_bit(enc_of(neg, q * pow2(g))) == neg,
        units(enc_of(neg, q * pow2(g))) == q * pow2(g),
{
    lemma2_to64();
    lemma2_to64_rest();
    let r = q * pow2(g);
    lemma_pow2_pos(g);
    if q < two52() {
        assert(g == 0);
        lemma_mul_basics(q as int);
        lemma_enc_parts(neg, 0, q);
    } else {
        lemma_bitlen_unique(q, 53);
        lemma_bitlen_mul_pow2(q, g);
        lemma_div_by_multiple(q as int, pow2(g) as int);
        lemma_pow2_adds(52, g);
        lemma_mul_inequality(pow2(52) as int, q as int, pow2(g) as int);
        lemma_mul_is_commutative(pow2(52) as int, pow2(g) as int);
        lemma_pow2_le(52, 52 + g);
        if g >= 2046 {
            lemma_pow2_le(2098, 52 + g);
        }
        lemma_enc_parts(neg, g + 1, (q - two52()) as nat);
    }
}

/// A rounded encoding that does not overflow is finite, with the given
/// sign and the rounded magnitude; one that overflows is infinite.
pub proof fn lemma_round_enc_value(neg: bool, m: nat, e: int)
    ensures
        !overflows(rnd(m, e)) ==> enc_is_finite(round_enc(neg, m, e)) && sign_bit(
            round_enc(neg, m, e),
        ) == neg && units(round_enc(neg, m, e)) == rnd(m, e),
        overflows(rnd(m, e)) ==> enc_is_infinite(round_enc(neg, m, e)) && sign_bit(
            round_enc(neg, m, e),
        ) == neg,
{
    let (q, g) = lemma_rnd_form(m, e);
    if overflows(rnd(m, e)) {
        lemma_enc_parts(neg, 0x7ff, 0);
        lemma2_to64();
        lemma2_to64_rest();
    } else {
        lemma_enc_of_value(neg, q, g);
    }
}

// ---------------------------------------------------------------------------
// Rounding to nearest

/// The distance between two integers.
pub open spec fn dist(a: int, b: int) -> int {
    if a >= b {
        a - b
    } else {
        b - a
    }
}

/// `m` is a binary64 magnitude: rounding leaves it in place.
pub open spec fn representable(m: nat) -> bool {
    rnd(m, 0) == m
}

/// `rne_shr` picks a nearest multiple of `2^k`, within half of `2^k`.
pub proof fn lemma_rne_nearest(m: nat, k: nat, c: nat)
    requires
        k >= 1,
    ensures
        dist(m as int, (rne_shr(m, k) * pow2(k)) as int) <= dist(m as int, (c * pow2(k)) as int),
        dist(m as int, (rne_shr(m, k) * pow2(k)) as int) <= pow2((k - 1) as nat),
{
    let p = pow2(k);
    let h = pow2((k - 1) as nat);
    lemma_pow2_pos(k);
    lemma_pow2_unfold(k);
    let q = m / p;
    let r = m % p;
    lemma_fundamental_div_mod(m as int, p as int);
    lemma_mod_bound(m as int, p as int);
    lemma_mul_is_commutative(p as int, q as int);
    lemma_rne_shr_decomp(m, q, r, k);
    assert((q + 1) * p == q * p + p) by (nonlinear_arith);
    if c <= q {
        assert(c * p <= q * p) by (nonlinear_arith)
            requires
                c <= q,
        ;
    } else {
        assert(c * p >= (q + 1) * p) by (nonlinear_arith)
            requires
                c >= q + 1,
        ;
    }
}

/// Rounding picks a nearest binary64 magnitude: no binary64 magnitude `w`
/// is nearer to `m` than `rnd(m, 0)`.
pub proof fn lemma_rnd_nearest(m: nat, w: nat)
    requires
        representable(w),
    ensures
        dist(rnd(m, 0) as int, m as int) <= dist(w as int, m as int),
{
    lemma2_to64();
    lemma2_to64_rest();
    let g = grid(m, 0);
    if g == 0 {
        assert(rne_shr(m, 0) == m);
        return;
    }
    let l = bitlen(m);
    lemma_bitlen_bounds(m);
    assert(l == 53 + g);
    let pg = pow2(g);
    lemma_pow2_pos(g);
    lemma_pow2_adds(52, g);
    lemma_pow2_adds(53, g);
    lemma_rne_nearest(m, g, pow2(52));
    lemma_rne_nearest(m, g, pow2(53));
    assert(dist(m as int, (rne_shr(m, g) * pg) as int) == dist(rnd(m, 0) as int, m as int));
    if w >= pow2(53 + g) {
        // beyond the binade: the top of the binade is nearer
    } else if w >= pow2(52 + g) {
        // in the binade: w is a multiple of 2^g
        lemma_bitlen_unique(w, 53 + g);
        let c = rne_shr(w, g);
        lemma_rne_nearest(m, g, c);
    } else {
        // below the binade: the bottom of the binade is nearer
    }
}

/// A significand of at most 53 bits (or 2^53) times a power of two is a
/// binary64 magnitude.
pub proof fn lemma_representable_small(d: nat, k: nat)
    requires
        d <= pow2(53),
    ensures
        representable(d * pow2(k)),
{
    lemma2_to64();
    lemma2_to64_rest();
    lemma_rnd_shift(d, 0, k);
    lemma_pow2_pos(k);
    if d == 0 {
        lemma_rnd_zero(k as int);
        lemma_mul_basics(pow2(k) as int);
        return;
    }
    lemma_bitlen_bounds(d);
    if d < pow2(53) {
        if bitlen(d) > 53 {
            lemma_pow2_le(53, (bitlen(d) - 1) as nat);
        }
        let g = grid(d, k as int);
        if (k as int) <= g {
            assert(rne_shr(d, 0) == d);
        }
    } else {
        lemma_bitlen_unique(d, 54);
        assert(grid(d, k as int) == k + 1);
        lemma_rne_shr_decomp(d, pow2(52), 0, 1);
        lemma_pow2_adds(1, k);
        lemma_mul_is_associative(pow2(52) as int, 2, pow2(k) as int);
    }
}

/// Rounding keeps every power of two that divides the magnitude.
pub proof fn lemma_rnd_multiple(m: nat, j: nat)
    requires
        m % pow2(j) == 0,
    ensures
        rnd(m, 0) % pow2(j) == 0,
{
    let g = grid(m, 0);
    lemma_pow2_pos(j);
    lemma_pow2_pos(g);
    let q = rne_shr(m, g);
    if g >= j {
        lemma_pow2_adds((g - j) as nat, j);
        lemma_mul_is_associative(q as int, pow2((g - j) as nat) as int, pow2(j) as int);
        lemma_mod_multiples_basic((q * pow2((g - j) as nat)) as int, pow2(j) as int);
    } else {
        let c = m / pow2(j);
        lemma_fundamental_div_mod(m as int, pow2(j) as int);
        lemma_mul_is_commutative(c as int, pow2(j) as int);
        lemma_rne_shr_exact(c, j, g);
        lemma_pow2_adds((j - g) as nat, g);
        lemma_mul_is_associative(c as int, pow2((j - g) as nat) as int, pow2(g) as int);
        assert(rnd(m, 0) == m);
    }
}

/// The rounding error is at most half the weight of the last kept bit, and
/// the result is a multiple of that weight.
pub proof fn lemma_rnd_error(m: nat)
    ensures
        rnd(m, 0) % pow2(grid(m, 0)) == 0,
        grid(m, 0) == 0 ==> rnd(m, 0) == m,
        grid(m, 0) > 0 ==> dist(rnd(m, 0) as int, m as int) <= pow2((grid(m, 0) - 1) as nat),
{
    let g = grid(m, 0);
    lemma_pow2_pos(g);
    lemma_mod_multiples_basic(rne_shr(m, g) as int, pow2(g) as int);
    if g == 0 {
        assert(rne_shr(m, 0) == m);
        lemma2_to64();
    } else {
        lemma_rne_nearest(m, g, 0);
    }
}

/// A multiple of `2^k` of at most `2^(53+k)` is a binary64 magnitude.
pub proof fn lemma_representable_multiple(x: nat, k: nat)
    requires
        x % pow2(k) == 0,
        x <= pow2(53) * pow2(k),
    ensures
        representable(x),
{
    lemma_pow2_pos(k);
    let d = x / pow2(k);
    lemma_fundamental_div_mod(x as int, pow2(k) as int);
    lemma_mul_is_commutative(d as int, pow2(k) as int);
    if d > pow2(53) {
        lemma_mul_strict_inequality(pow2(53) as int, d as int, pow2(k) as int);
    }
    lemma_representable_small(d, k);
}

/// Multiples of a larger power of two are multiples of a smaller one.
pub proof fn lemma_multiple_le(x: nat, j: nat, k: nat)
    requires
        x % pow2(k) == 0,
        j <= k,
    ensures
        x % pow2(j) == 0,
{
    lemma_pow2_pos(k);
    lemma_pow2_pos(j);
    lemma_pow2_adds((k - j) as nat, j);
    let c = x / pow2(k);
    lemma_fundamental_div_mod(x as int, pow2(k) as int);
    lemma_mul_is_associative(c as int, pow2((k - j) as nat) as int, pow2(j) as int);
    lemma_mul_is_commutative(pow2(k) as int, c as int);
    lemma_mod_multiples_basic((c * pow2((k - j) as nat)) as int, pow2(j) as int);
}

/// The magnitudes in Fast2Sum: for binary64 magnitudes `a >= b` (with
/// significands `sa`, `sb` and unit shifts `ka >= kb`), rounding their sum
/// or difference `m` leaves a result `r` whose distance to `a` and whose
/// rounding error are binary64 magnitudes.
pub proof fn lemma_fast2sum_mag(a: nat, sa: nat, ka: nat, b: nat, sb: nat, kb: nat, same: bool)
    requires
        a == sa * pow2(ka),
        b == sb * pow2(kb),
        sa < pow2(53),
        sb < pow2(53),
        kb <= ka,
        ka <= 2045,
        b <= a,
        !overflows(rnd(
            (if same {
                (a + b) as int
            } else {
                a - b
            }) as nat,
            0,
        )),
    ensures
        ({
            let m = (if same {
                (a + b) as int
            } else {
                a - b
            }) as nat;
            let r = rnd(m, 0);
            &&& same ==> r >= a && representable((r - a) as nat) && !overflows((r - a) as nat)
            &&& !same ==> r <= a && representable((a - r) as nat) && !overflows((a - r) as nat)
            &&& dist(m as int, r as int) <= b
            &&& representable(dist(m as int, r as int) as nat)
            &&& (dist(m as int, r as int) as nat) % pow2(kb) == 0
            &&& r < b ==> r == m
        }),
{
    lemma2_to64();
    lemma2_to64_rest();
    let m = (if same {
        (a + b) as int
    } else {
        a - b
    }) as nat;
    let r = rnd(m, 0);
    let g = grid(m, 0);
    let pkb = pow2(kb);
    lemma_pow2_pos(kb);
    lemma_pow2_pos(ka);
    lemma_pow2_pos(g);
    // a and b are multiples of 2^kb, and so are m and r
    lemma_pow2_adds((ka - kb) as nat, kb);
    lemma_mul_is_associative(sa as int, pow2((ka - kb) as nat) as int, pkb as int);
    let ca = sa * pow2((ka - kb) as nat);
    assert(a == ca * pkb);
    assert(m == (if same {
        (ca + sb) as int
    } else {
        ca - sb
    }) * pkb) by (nonlinear_arith)
        requires
            a == ca * pkb,
            b == sb * pkb,
            m == (if same {
                (a + b) as int
            } else {
                a - b
            }),
    ;
    lemma_mod_multiples_basic((if same {
        (ca + sb) as int
    } else {
        ca - sb
    }) as int, pkb as int);
    lemma_rnd_multiple(m, kb);
    // nearness against a
    lemma_representable_small(sa, ka);
    lemma_rnd_nearest(m, a);
    // the rounding error
    lemma_rnd_error(m);
    lemma_mod_multiples_basic(sb as int, pkb as int);
    lemma_mul_is_commutative(sb as int, pkb as int);
    assert(a % pkb == 0) by {
        lemma_mod_multiples_basic(ca as int, pkb as int);
        lemma_mul_is_commutative(ca as int, pkb as int);
    }
    // the error is a multiple of 2^kb of at most b
    let err = dist(m as int, r as int) as nat;
    assert(err % pkb == 0) by {
        lemma_mod_sub_multiples(m, r, pkb);
    }
    assert(b <= pow2(53) * pkb) by {
        lemma_mul_inequality(sb as int, pow2(53) as int, pkb as int);
    }
    lemma_representable_multiple(err, kb);
    if same {
        assert(r >= a);
    } else {
        assert(r <= a);
    }
    let z = (if same {
        r - a
    } else {
        a - r
    }) as nat;
    lemma_pow2_pos(2098);
    assert(a < pow2(2098)) by {
        lemma_mul_strict_inequality(sa as int, pow2(53) as int, pow2(ka) as int);
        lemma_pow2_adds(53, ka);
        lemma_pow2_le(53 + ka, 2098);
    }
    if g == 0 || r == m {
        // exact: the distance to a is b
        assert(z == b);
        lemma_representable_small(sb, kb);
    } else {
        lemma_bitlen_bounds(m);
        assert(bitlen(m) == 53 + g);
        lemma_pow2_adds(52, g);
        lemma_pow2_adds(53, ka);
        lemma_pow2_unfold(g);
        let h = pow2((g - 1) as nat);
        assert(z <= b + h);
        // g > kb, else m is a multiple of 2^g and rounds to itself
        if g <= kb {
            lemma_multiple_le(m, g, kb);
            let c = m / pow2(g);
            lemma_fundamental_div_mod(m as int, pow2(g) as int);
            lemma_mul_is_commutative(c as int, pow2(g) as int);
            lemma_rne_shr_exact(c, g, g);
            assert(pow2(0) == 1);
            assert(false);
        }
        assert(r >= b) by {
            {
                lemma_pow2_le(kb, (g - 1) as nat);
                assert(b <= (pow2(53) - 1) * pkb) by {
                    lemma_mul_inequality(sb as int, (pow2(53) - 1) as int, pkb as int);
                }
                assert((pow2(53) - 1) * pkb <= pow2(52 + g) - h) by (nonlinear_arith)
                    requires
                        pow2(52 + g) == pow2(52) * pow2(g),
                        pow2(g) == 2 * h,
                        pkb <= h,
                        pow2(53) == 2 * pow2(52),
                        pow2(52) == 0x10_0000_0000_0000,
                ;
                assert(pow2(52 + g) <= m);
                assert(r + h >= m);
            }
        }
        assert(a < pow2(53) * pow2(ka)) by {
            lemma_mul_strict_inequality(sa as int, pow2(53) as int, pow2(ka) as int);
        }
        if g <= ka {
            // z is a multiple of 2^g of at most 2^52 * 2^g
            assert(a % pow2(ka) == 0) by {
                lemma_mod_multiples_basic(sa as int, pow2(ka) as int);
                lemma_mul_is_commutative(sa as int, pow2(ka) as int);
            }
            lemma_multiple_le(a, g, ka);
            lemma_mod_sub_multiples(r, a, pow2(g));
            lemma_pow2_le(kb, (g - 1) as nat);
            lemma_mul_inequality(sb as int, pow2(53) as int, pkb as int);
            assert(b <= sb * h) by {
                lemma_mul_inequality(pkb as int, h as int, sb as int);
                lemma_mul_is_commutative(pkb as int, sb as int);
                lemma_mul_is_commutative(h as int, sb as int);
            }
            assert(z <= pow2(53) * pow2(g)) by (nonlinear_arith)
                requires
                    z <= b + h,
                    b <= sb * h,
                    sb < pow2(53),
                    pow2(g) == 2 * h,
                    h > 0,
            ;
            lemma_representable_multiple(z, g);
        } else {
            // only a sum can reach past the binade of a: then g == ka + 1
            if !same {
                lemma_pow2_le(53 + ka, 52 + g);
                assert(false);
            }
            assert(m < pow2(54 + ka)) by {
                lemma_pow2_unfold(54 + ka);
            }
            if g > ka + 1 {
                lemma_pow2_le(54 + ka, 52 + g);
            }
            assert(g == ka + 1);
            assert(a % pow2(ka) == 0) by {
                lemma_mod_multiples_basic(sa as int, pow2(ka) as int);
                lemma_mul_is_commutative(sa as int, pow2(ka) as int);
            }
            lemma_multiple_le(r, ka, g);
            lemma_mod_sub_multiples(r, a, pow2(ka));
            assert(z <= pow2(53) * pow2(ka)) by (nonlinear_arith)
                requires
                    z <= b + h,
                    b <= a,
                    h == pow2(ka),
                    a < pow2(53) * pow2(ka),
                    a % pow2(ka) == 0,
                    pow2(ka) > 0,
            ;
            lemma_representable_multiple(z, ka);
        }
    }
}

/// The difference of two multiples is a multiple.
pub proof fn lemma_mod_sub_multiples(x: nat, y: nat, p: nat)
    requires
        p > 0,
        x % p == 0,
        y % p == 0,
    ensures
        (dist(x as int, y as int) as nat) % p == 0,
        x >= y ==> ((x - y) as nat) % p == 0,
        y >= x ==> ((y - x) as nat) % p == 0,
{
    lemma_fundamental_div_mod(x as int, p as int);
    lemma_fundamental_div_mod(y as int, p as int);
    let cx = x / p;
    let cy = y / p;
    if x >= y {
        assert(x - y == (cx - cy) * p) by (nonlinear_arith)
            requires
                x == p * cx,
                y == p * cy,
        ;
        assert(cx >= cy) by (nonlinear_arith)
            requires
                x == p * cx,
                y == p * cy,
                x >= y,
                p > 0,
        ;
        lemma_mod_multiples_basic((cx - cy) as int, p as int);
    } else {
        assert(y - x == (cy - cx) * p) by (nonlinear_arith)
            requires
                x == p * cx,
                y == p * cy,
        ;
        assert(cy >= cx) by (nonlinear_arith)
            requires
                x == p * cx,
                y == p * cy,
                x < y,
                p > 0,
        ;
        lemma_mod_multiples_basic((cy - cx) as int, p as int);
    }
}

/// The rounding error of a magnitude of at most 106 significant bits above
/// `2^e` is a binary64 magnitude, and no larger than the rounded magnitude.
pub proof fn lemma_product_error(p: nat, e: nat)
    requires
        p < pow2(106),
    ensures
        representable(dist((p * pow2(e)) as int, rnd(p * pow2(e), 0) as int) as nat),
        dist((p * pow2(e)) as int, rnd(p * pow2(e), 0) as int) <= rnd(p * pow2(e), 0),
{
    lemma2_to64();
    lemma2_to64_rest();
    let m = p * pow2(e);
    let r = rnd(m, 0);
    let g = grid(m, 0);
    let err = dist(m as int, r as int) as nat;
    lemma_pow2_pos(e);
    lemma_pow2_pos(g);
    lemma_rnd_error(m);
    assert(m % pow2(e) == 0) by {
        lemma_mod_multiples_basic(p as int, pow2(e) as int);
        lemma_mul_is_commutative(p as int, pow2(e) as int);
    }
    lemma_rnd_multiple(m, e);
    lemma_mod_sub_multiples(m, r, pow2(e));
    if g == 0 {
        assert(err == 0);
        lemma_representable_small(0, 0);
        lemma_mul_basics(pow2(0) as int);
    } else {
        lemma_bitlen_bounds(m);
        if p == 0 {
            lemma_mul_basics(pow2(e) as int);
        }
        lemma_bitlen_mul_pow2(p, e);
        lemma_bitlen_bounds(p);
        if bitlen(p) > 106 {
            lemma_pow2_le(106, (bitlen(p) - 1) as nat);
        }
        // g = bitlen(p) + e - 53 <= 53 + e
        lemma_pow2_le((g - 1) as nat, 52 + e);
        lemma_pow2_adds(52, e);
        lemma_pow2_unfold(53);
        lemma_mul_inequality(pow2(52) as int, pow2(53) as int, pow2(e) as int);
        lemma_representable_multiple(err, e);
        // r >= 2^(52+g) - 2^(g-1) > 2^(g-1)
        lemma_pow2_adds(52, g);
        lemma_pow2_unfold(g);
        lemma_pow2_le(g, 52 + g);
    }
}

} // verus!
