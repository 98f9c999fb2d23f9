//! The exponential function: the reduction of its argument and the
//! expansion of `expm1` for small arguments.
//!
//! Let `alpha = log(2)/128`.  An argument `x` is reduced to
//! `x = k * alpha + y` with `|y| <= alpha/2`, and `k = 128 * m + n`; then
//! `exp(x) = 2^m * exp(n * alpha) * exp(y)`, where `exp(n * alpha)` comes
//! from a table and `expm1(y)` from its Taylor series.
use crate::arith::{
    add_dq, addfast_dq, addfast_qd, addfast_qd_spec, addfast_qq, addfast_qq_spec, div_qq,
    fast_two_sum, mul_dq, add_qd_spec, mul_pow2, reciprocal_q_spec, mul_qd_spec, mul_qq, mul_qq_spec, neg_parts, parts, square_q,
    square_q_spec, sub_qd, subfast_qd, subfast_qq,
};
use crate::ieee::{
    enc_is_finite, enc_is_infinite, enc_is_nan, enc_le, enc_lt, exp_field, frac_field, le_enc,
    lemma_units_bounds, lt_enc, order_key, scaled, sign_bit, significand, two52, unit_shift,
    units,
};
use crate::ops::{
    abs_enc, add_enc, fabs, fadd, fmul, fneg, fround, lemma_fabs, lemma_round_signed_shift,
    lemma_round_signed_value, fldexp, ldexp_enc, lemma_round_exact, magnitude, mul_enc, round_away_enc,
    round_away_units, round_signed, to_i32, to_i32_spec, trunc_units,
};
use crate::rounding::{
    dist, lemma_enc_parts, lemma_pow2_le, lemma_representable_small, lemma_round_enc_value, overflows, representable,
    rnd,
};
use crate::accuracy::{lemma_magnitude_mul, lemma_rnd_relative, lemma_round_signed_relative};
use crate::checks::{is_finite, is_nan};
use crate::Compensated;
use crate::Df64;
use vstd::arithmetic::div_mod::*;
use vstd::arithmetic::mul::*;
use vstd::arithmetic::power2::*;
use vstd::prelude::*;

verus! {

/// `128 / log(2)`, rounded to binary64.
pub const INV_ALPHA: u64 = 0x4067_1547_652b_82feu64;

/// `alpha = log(2)/128` to 90 significant bits, leading part.
pub const ALPHA_T_HI: u64 = 0x3f76_2e42_fefa_39efu64;

/// `alpha = log(2)/128` to 90 significant bits, compensate.
pub const ALPHA_T_LO: u64 = 0x3c0a_bc9e_3b38_0000u64;

/// The rest of `alpha` beyond `ALPHA_T`, rounded to binary64.
pub const ALPHA_CORR: u64 = 0x39c8_03f2_f6af_40f3u64;

/// One.
pub const ONE: u64 = 0x3ff0_0000_0000_0000u64;

/// One half.
pub const HALF: u64 = 0x3fe0_0000_0000_0000u64;

/// Two.
pub const TWO: u64 = 0x4000_0000_0000_0000u64;

/// Splits `k = 128 * m + n` with `n` in `-64..64`.
///
/// The exponential reduces its argument `x = k * log(2)/128 + y`, and then
/// `exp(x) = 2^m * exp(n * log(2)/128 + y)`, with the factor for `n` taken
/// from a table of 128 entries centred on zero.
pub fn reduce_mod_128(k: i32) -> (r: (i32, i32))
    ensures
        k == 128 * r.0 + r.1,
        -64 <= r.1 < 64,
{
    let mut m = k >> 7u32;
    let mut n = k & 0x7F;
    assert(m == k / 128 && n == k % 128 && ((k & 0x40 != 0) == (n >= 64))) by (bit_vector)
        requires
            m == k >> 7u32,
            n == k & 0x7F,
    ;
    if k & 0x40 != 0 {
        n -= 0x80;
        m += 1;
    }
    (m, n)
}

/// The double-double nearest to `1 / n!`, for `n` in `0..30`.
pub open spec fn reciprocal_factorial_spec(n: int) -> (u64, u64) {
    if n == 0 {
        (0x3ff0000000000000u64, 0x0000000000000000u64)
    } else if n == 1 {
        (0x3ff0000000000000u64, 0x0000000000000000u64)
    } else if n == 2 {
        (0x3fe0000000000000u64, 0x0000000000000000u64)
    } else if n == 3 {
        (0x3fc5555555555555u64, 0x3c65555555555555u64)
    } else if n == 4 {
        (0x3fa5555555555555u64, 0x3c45555555555555u64)
    } else if n == 5 {
        (0x3f81111111111111u64, 0x3c01111111111111u64)
    } else if n == 6 {
        (0x3f56c16c16c16c17u64, 0xbbef49f49f49f49fu64)
    } else if n == 7 {
        (0x3f2a01a01a01a01au64, 0x3b6a01a01a01a01au64)
    } else if n == 8 {
        (0x3efa01a01a01a01au64, 0x3b3a01a01a01a01au64)
    } else if n == 9 {
        (0x3ec71de3a556c734u64, 0xbb6c154f8ddc6c00u64)
    } else if n == 10 {
        (0x3e927e4fb7789f5cu64, 0x3b3cbbc05b4fa99au64)
    } else if n == 11 {
        (0x3e5ae64567f544e4u64, 0xbafc062e06d1f209u64)
    } else if n == 12 {
        (0x3e21eed8eff8d898u64, 0xbac2aec959e14c06u64)
    } else if n == 13 {
        (0x3de6124613a86d09u64, 0x3a8f28e0cc748ebeu64)
    } else if n == 14 {
        (0x3da93974a8c07c9du64, 0x3a305d6f8a2efd1fu64)
    } else if n == 15 {
        (0x3d6ae7f3e733b81fu64, 0x39e1d8656b0ee8cbu64)
    } else if n == 16 {
        (0x3d2ae7f3e733b81fu64, 0x39a1d8656b0ee8cbu64)
    } else if n == 17 {
        (0x3ce952c77030ad4au64, 0x398ac981465ddc6cu64)
    } else if n == 18 {
        (0x3ca6827863b97d97u64, 0x394eec01221a8b0bu64)
    } else if n == 19 {
        (0x3c62f49b46814157u64, 0x38f2650f61dbdcb4u64)
    } else if n == 20 {
        (0x3c1e542ba4020225u64, 0x387ea72b4afe3c2fu64)
    } else if n == 21 {
        (0x3bd71b8ef6dcf572u64, 0xb87d043ae40c4647u64)
    } else if n == 22 {
        (0x3b90ce396db7f853u64, 0xb83aebcdbd20331cu64)
    } else if n == 23 {
        (0x3b4761b41316381au64, 0xb7d3423c7d91404fu64)
    } else if n == 24 {
        (0x3aff2cf01972f578u64, 0xb789ada5fcc1ab14u64)
    } else if n == 25 {
        (0x3ab3f3ccdd165fa9u64, 0xb7458ddadf344487u64)
    } else if n == 26 {
        (0x3a688e85fc6a4e5au64, 0xb7071c37ebd16540u64)
    } else if n == 27 {
        (0x3a1d1ab1c2dccea3u64, 0x36a054d0c78aea14u64)
    } else if n == 28 {
        (0x39d0a18a2635085du64, 0x366b9e2e28e1aa54u64)
    } else if n == 29 {
        (0x398259f98b4358adu64, 0x362eaf8c39dd9bc5u64)
    } else {
        (0, 0)
    }
}

/// `1 / n!` in double-double precision, from a table.
pub fn reciprocal_factorial(n: i32) -> (r: Df64)
    requires
        0 <= n < 30,
    ensures
        parts(r) == reciprocal_factorial_spec(n as int),
{
    let (hi, lo): (u64, u64) = match n {
        0 => (0x3ff0000000000000u64, 0x0000000000000000u64),
        1 => (0x3ff0000000000000u64, 0x0000000000000000u64),
        2 => (0x3fe0000000000000u64, 0x0000000000000000u64),
        3 => (0x3fc5555555555555u64, 0x3c65555555555555u64),
        4 => (0x3fa5555555555555u64, 0x3c45555555555555u64),
        5 => (0x3f81111111111111u64, 0x3c01111111111111u64),
        6 => (0x3f56c16c16c16c17u64, 0xbbef49f49f49f49fu64),
        7 => (0x3f2a01a01a01a01au64, 0x3b6a01a01a01a01au64),
        8 => (0x3efa01a01a01a01au64, 0x3b3a01a01a01a01au64),
        9 => (0x3ec71de3a556c734u64, 0xbb6c154f8ddc6c00u64),
        10 => (0x3e927e4fb7789f5cu64, 0x3b3cbbc05b4fa99au64),
        11 => (0x3e5ae64567f544e4u64, 0xbafc062e06d1f209u64),
        12 => (0x3e21eed8eff8d898u64, 0xbac2aec959e14c06u64),
        13 => (0x3de6124613a86d09u64, 0x3a8f28e0cc748ebeu64),
        14 => (0x3da93974a8c07c9du64, 0x3a305d6f8a2efd1fu64),
        15 => (0x3d6ae7f3e733b81fu64, 0x39e1d8656b0ee8cbu64),
        16 => (0x3d2ae7f3e733b81fu64, 0x39a1d8656b0ee8cbu64),
        17 => (0x3ce952c77030ad4au64, 0x398ac981465ddc6cu64),
        18 => (0x3ca6827863b97d97u64, 0x394eec01221a8b0bu64),
        19 => (0x3c62f49b46814157u64, 0x38f2650f61dbdcb4u64),
        20 => (0x3c1e542ba4020225u64, 0x387ea72b4afe3c2fu64),
        21 => (0x3bd71b8ef6dcf572u64, 0xb87d043ae40c4647u64),
        22 => (0x3b90ce396db7f853u64, 0xb83aebcdbd20331cu64),
        23 => (0x3b4761b41316381au64, 0xb7d3423c7d91404fu64),
        24 => (0x3aff2cf01972f578u64, 0xb789ada5fcc1ab14u64),
        25 => (0x3ab3f3ccdd165fa9u64, 0xb7458ddadf344487u64),
        26 => (0x3a688e85fc6a4e5au64, 0xb7071c37ebd16540u64),
        27 => (0x3a1d1ab1c2dccea3u64, 0x36a054d0c78aea14u64),
        28 => (0x39d0a18a2635085du64, 0x366b9e2e28e1aa54u64),
        29 => (0x398259f98b4358adu64, 0x362eaf8c39dd9bc5u64),
        _ => (0, 0),
    };
    Compensated::new(hi, lo)
}

/// The double-double nearest to `expm1(n * log(2) / 128)`, for `n` in
/// `-64..64`.
pub open spec fn expm1_alphas_spec(n: int) -> (u64, u64) {
    if n == -64 {
        (0xbfd2bec333018867u64, 0x3c608b2fb1366ea9u64)
    } else if n == -63 {
        (0xbfd27fdb15e84a82u64, 0xbc62895667ff0b0du64)
    } else if n == -62 {
        (0xbfd2409b8735cba2u64, 0xbc5bbe3a683c88abu64)
    } else if n == -61 {
        (0xbfd201040d5cd6f8u64, 0xbc783c0f25860ef6u64)
    } else if n == -60 {
        (0xbfd1c1142e274118u64, 0xbc716e4786887a99u64)
    } else if n == -59 {
        (0xbfd180cb6eb4fd19u64, 0x3c7eae4d27345589u64)
    } else if n == -58 {
        (0xbfd14029537b306fu64, 0x3c7fb74d519d2459u64)
    } else if n == -57 {
        (0xbfd0ff2d60434581u64, 0xbc6e651fd7f7a74du64)
    } else if n == -56 {
        (0xbfd0bdd71829fcf2u64, 0xbc741577ee04992fu64)
    } else if n == -55 {
        (0xbfd07c25fd9e7d9bu64, 0xbc3db665dd36454fu64)
    } else if n == -54 {
        (0xbfd03a199261633cu64, 0x3c605d02ba15797eu64)
    } else if n == -53 {
        (0xbfcfef62af0797b9u64, 0xbc53e433136cb956u64)
    } else if n == -52 {
        (0xbfcf69d99accc7b6u64, 0x3c559f115f566940u64)
    } else if n == -51 {
        (0xbfcee396e770e14du64, 0x3c5ca5ed72f8c813u64)
    } else if n == -50 {
        (0xbfce5c9992edb44eu64, 0x3c1c83b21584a2e1u64)
    } else if n == -49 {
        (0xbfcdd4e099d6659au64, 0xbc69acf4320d2b16u64)
    } else if n == -48 {
        (0xbfcd4c6af7557c93u64, 0x3c6ba7c55a192c9cu64)
    } else if n == -47 {
        (0xbfccc337a52aedd0u64, 0xbc60d55e32e9e3aau64)
    } else if n == -46 {
        (0xbfcc39459baa2327u64, 0xbc6467d8ba38d128u64)
    } else if n == -45 {
        (0xbfcbae93d1b800eau64, 0x3c514c368d3ed6e2u64)
    } else if n == -44 {
        (0xbfcb23213cc8e86cu64, 0xbc575fc781b57ebcu64)
    } else if n == -43 {
        (0xbfca96ecd0deb7c4u64, 0xbc664b7c96a5f039u64)
    } else if n == -42 {
        (0xbfca09f58086c6c2u64, 0x3c573d241f23d17bu64)
    } else if n == -41 {
        (0xbfc97c3a3cd7e119u64, 0xbc473bd91cee6321u64)
    } else if n == -40 {
        (0xbfc8edb9f5703dc0u64, 0x3c6c7c46b071f2beu64)
    } else if n == -39 {
        (0xbfc85e7398737374u64, 0x3c6824ca78e64c6eu64)
    } else if n == -38 {
        (0xbfc7ce6612886a6du64, 0xbc5aca4ae8e6a997u64)
    } else if n == -37 {
        (0xbfc73d904ed74b33u64, 0x3c68c171f770daadu64)
    } else if n == -36 {
        (0xbfc6abf137076a8eu64, 0x3c5684892395f0f8u64)
    } else if n == -35 {
        (0xbfc61987b33d329eu64, 0xbc60d204d4ea70e5u64)
    } else if n == -34 {
        (0xbfc58652aa180903u64, 0x3c3f5921deffa626u64)
    } else if n == -33 {
        (0xbfc4f25100b03219u64, 0x3c1b72cd4624cbf9u64)
    } else if n == -32 {
        (0xbfc45d819a94b14bu64, 0x3c6e8734d1773206u64)
    } else if n == -31 {
        (0xbfc3c7e359c9266au64, 0x3c60842acdfc6f6du64)
    } else if n == -30 {
        (0xbfc331751ec3a814u64, 0xbc52805e3084d708u64)
    } else if n == -29 {
        (0xbfc29a35c86a9b1au64, 0x3c5c7102222c90e8u64)
    } else if n == -28 {
        (0xbfc20224341286e4u64, 0xbc65584f7e54ac3bu64)
    } else if n == -27 {
        (0xbfc1693f3d7be6dau64, 0x3c4032cf1abd6d20u64)
    } else if n == -26 {
        (0xbfc0cf85bed0f8b7u64, 0xbc6b845f0ba4c2f7u64)
    } else if n == -25 {
        (0xbfc034f690a387deu64, 0x3c40235c094638d1u64)
    } else if n == -24 {
        (0xbfbf332113d56b1fu64, 0x3c31065895048dd3u64)
    } else if n == -23 {
        (0xbfbdfaa500017c2du64, 0x3c5a29bf041e3051u64)
    } else if n == -22 {
        (0xbfbcc0768d4175a6u64, 0x3c54426ffa41e566u64)
    } else if n == -21 {
        (0xbfbb84935fc8c257u64, 0xbc5ca6876eff4778u64)
    } else if n == -20 {
        (0xbfba46f918837cb7u64, 0xbc55f8685c2d6c49u64)
    } else if n == -19 {
        (0xbfb907a55511e032u64, 0x3c413e2563eb1470u64)
    } else if n == -18 {
        (0xbfb7c695afc3b424u64, 0x3c5a1e45e4342b1cu64)
    } else if n == -17 {
        (0xbfb683c7bf93b074u64, 0x3c55bc247313d440u64)
    } else if n == -16 {
        (0xbfb53f391822dbc7u64, 0x3c476816bad9b837u64)
    } else if n == -15 {
        (0xbfb3f8e749b3e342u64, 0xbc41ec18beddfe82u64)
    } else if n == -14 {
        (0xbfb2b0cfe1266bd4u64, 0xbc5ee7fcb492566du64)
    } else if n == -13 {
        (0xbfb166f067f25cfeu64, 0x3c56d2bbc780c614u64)
    } else if n == -12 {
        (0xbfb01b466423250au64, 0xbc4a5cd4f184b5b9u64)
    } else if n == -11 {
        (0xbfad9b9eb0a5ed76u64, 0x3c22761fa17ada64u64)
    } else if n == -10 {
        (0xbfaafd11874c009eu64, 0x3c4cf44c054e647au64)
    } else if n == -9 {
        (0xbfa85ae0438b37cbu64, 0xbc42add35f3721e6u64)
    } else if n == -8 {
        (0xbfa5b505d5b6f268u64, 0x3c463dce863d76ccu64)
    } else if n == -7 {
        (0xbfa30b7d271980f7u64, 0xbc327e768235b188u64)
    } else if n == -6 {
        (0xbfa05e4119ea5d89u64, 0x3c4c7f486a4b6b08u64)
    } else if n == -5 {
        (0xbf9b5a991288ad16u64, 0xbc2796903c9c6f2bu64)
    } else if n == -4 {
        (0xbf95f134923757f3u64, 0xbc160f6913af3a8au64)
    } else if n == -3 {
        (0xbf90804a4c683d8fu64, 0x3c213b4bfe72bd96u64)
    } else if n == -2 {
        (0xbf860f9f985bc9f4u64, 0xbc26f5818b4d9c3eu64)
    } else if n == -1 {
        (0xbf761eea3847077bu64, 0xbc1148b699a8618bu64)
    } else if n == 0 {
        (0x0000000000000000u64, 0x0000000000000000u64)
    } else if n == 1 {
        (0x3f763da9fb33356eu64, 0xbc1ed665473248c8u64)
    } else if n == 2 {
        (0x3f864d1f3bc03077u64, 0x3c1bdf2b293de8a7u64)
    } else if n == 3 {
        (0x3f90c57a1b9fe12fu64, 0x3c3738f9a20da47eu64)
    } else if n == 4 {
        (0x3f966c34c5615d0fu64, 0xbc3183ab7149735cu64)
    } else if n == 5 {
        (0x3f9c1aca777db772u64, 0xbc323bfc562784d8u64)
    } else if n == 6 {
        (0x3fa0e8a30eb37901u64, 0x3c286be4bb284ff4u64)
    } else if n == 7 {
        (0x3fa3c7d958de7069u64, 0xbc46f0fcf9d3d94au64)
    } else if n == 8 {
        (0x3fa6ab0d9f3121ecu64, 0x3c44c5c95b8c2155u64)
    } else if n == 9 {
        (0x3fa992456e48fee8u64, 0x3c1edc16e24f717au64)
    } else if n == 10 {
        (0x3fac7d865a7a3440u64, 0x3c403a1727c57b53u64)
    } else if n == 11 {
        (0x3faf6cd5ffda635eu64, 0x3c419048eec50a13u64)
    } else if n == 12 {
        (0x3fb1301d0125b50au64, 0x3c53aefc6bb64c63u64)
    } else if n == 13 {
        (0x3fb2abdc06c31cc0u64, 0xbc51b514b36ca5c7u64)
    } else if n == 14 {
        (0x3fb429aaea92ddfbu64, 0x3c4a080ca1d92c37u64)
    } else if n == 15 {
        (0x3fb5a98c8a58e512u64, 0x3c520355cf75584fu64)
    } else if n == 16 {
        (0x3fb72b83c7d517aeu64, 0xbc49041b9d78a75bu64)
    } else if n == 17 {
        (0x3fb8af9388c8de9cu64, 0xbc51023d1970f6bfu64)
    } else if n == 18 {
        (0x3fba35beb6fcb754u64, 0xbc4a4b384b6971beu64)
    } else if n == 19 {
        (0x3fbbbe084045cd3au64, 0xbc55386352ef6073u64)
    } else if n == 20 {
        (0x3fbd4873168b9aa8u64, 0xbc5fe91ff5d9bc3eu64)
    } else if n == 21 {
        (0x3fbed5022fcd91ccu64, 0xbc5df98027bb78b8u64)
    } else if n == 22 {
        (0x3fc031dc431466b2u64, 0xbc51c453f5abdb59u64)
    } else if n == 23 {
        (0x3fc0fa4c8beee4b1u64, 0x3c554bf4a4a52f6du64)
    } else if n == 24 {
        (0x3fc1c3d373ab11c3u64, 0x3c5b07eb6c70572du64)
    } else if n == 25 {
        (0x3fc28e727d9531fau64, 0xbc64faa9042c2d70u64)
    } else if n == 26 {
        (0x3fc35a2b2f13e6e9u64, 0x3c55e99cca074ec9u64)
    } else if n == 27 {
        (0x3fc426ff0fab1c05u64, 0xbc6261d461f86bedu64)
    } else if n == 28 {
        (0x3fc4f4efa8fef709u64, 0x3c684ba2beb44954u64)
    } else if n == 29 {
        (0x3fc5c3fe86d6cc80u64, 0xbc410adcd6381aa4u64)
    } else if n == 30 {
        (0x3fc6942d3720185au64, 0x3be23aa6da0ea709u64)
    } else if n == 31 {
        (0x3fc7657d49f17ab1u64, 0xbc6c6be17455b8fau64)
    } else if n == 32 {
        (0x3fc837f0518db8a9u64, 0x3c6bd1ab48c60b91u64)
    } else if n == 33 {
        (0x3fc90b87e266c18au64, 0xbc658c61c79fee0fu64)
    } else if n == 34 {
        (0x3fc9e0459320b7fau64, 0x3c69390c21b2cd2du64)
    } else if n == 35 {
        (0x3fcab62afc94ff86u64, 0x3c628c468ec6e75eu64)
    } else if n == 36 {
        (0x3fcb8d39b9d54e55u64, 0x3c5c51540bd151e6u64)
    } else if n == 37 {
        (0x3fcc6573682ec32cu64, 0x3c56a72c366fb432u64)
    } else if n == 38 {
        (0x3fcd3ed9a72cffb7u64, 0x3c643792533c143au64)
    } else if n == 39 {
        (0x3fce196e189d4724u64, 0x3c50007c8a2d63ceu64)
    } else if n == 40 {
        (0x3fcef5326091a112u64, 0xbc6497dbb83d8512u64)
    } else if n == 41 {
        (0x3fcfd228256400ddu64, 0x3c27ee035483065fu64)
    } else if n == 42 {
        (0x3fd0582887dcb8a8u64, 0xbc5ef3691c309278u64)
    } else if n == 43 {
        (0x3fd0c7d76542a25bu64, 0x3c7c704439410ccfu64)
    } else if n == 44 {
        (0x3fd13821818624b4u64, 0x3c489b7a04ef80d0u64)
    } else if n == 45 {
        (0x3fd1a907b474015eu64, 0xbc6b5da174dbac4du64)
    } else if n == 46 {
        (0x3fd21a8ad704f340u64, 0x3c73c1a3b69062f0u64)
    } else if n == 47 {
        (0x3fd28cabc35f4f7au64, 0xbc78d27430b906a8u64)
    } else if n == 48 {
        (0x3fd2ff6b54d8a89cu64, 0x3c7d4397afec42e2u64)
    } else if n == 49 {
        (0x3fd372ca67f77436u64, 0xbc7c4c910e561f34u64)
    } else if n == 50 {
        (0x3fd3e6c9da74b29bu64, 0xbc72cc2749655f8cu64)
    } else if n == 51 {
        (0x3fd45b6a8b3d9907u64, 0x3c312f52c84d8222u64)
    } else if n == 52 {
        (0x3fd4d0ad5a753e07u64, 0x3c7f0a83c49d86a6u64)
    } else if n == 53 {
        (0x3fd546932976483bu64, 0x3c54bb188090d32au64)
    } else if n == 54 {
        (0x3fd5bd1cdad49f6au64, 0xbc79134ffb89b14cu64)
    } else if n == 55 {
        (0x3fd6344b525f1ff5u64, 0xbc7ad43d48cbc431u64)
    } else if n == 56 {
        (0x3fd6ac1f752150a5u64, 0x3c78c93015191eb3u64)
    } else if n == 57 {
        (0x3fd7249a29651adcu64, 0x3c3c4b1b816986a2u64)
    } else if n == 58 {
        (0x3fd79dbc56b48522u64, 0xbc71641b3dfc668au64)
    } else if n == 59 {
        (0x3fd81786e5db7023u64, 0xbc6f1214dab6f239u64)
    } else if n == 60 {
        (0x3fd891fac0e95613u64, 0xbc6c1e0bf205a4b8u64)
    } else if n == 61 {
        (0x3fd90d18d3330c7fu64, 0x3c5dbe1c5313b669u64)
    } else if n == 62 {
        (0x3fd988e209548892u64, 0x3c7127d9e29b8f31u64)
    } else if n == 63 {
        (0x3fda05575132a5ccu64, 0x3c6038ae44f73e65u64)
    } else {
        (0, 0)
    }
}

/// `expm1(n * log(2) / 128)` in double-double precision, from a table.
pub fn expm1_alphas(n: i32) -> (r: Df64)
    requires
        -64 <= n < 64,
    ensures
        parts(r) == expm1_alphas_spec(n as int),
{
    let (hi, lo): (u64, u64) = match n {
        -64 => (0xbfd2bec333018867u64, 0x3c608b2fb1366ea9u64),
        -63 => (0xbfd27fdb15e84a82u64, 0xbc62895667ff0b0du64),
        -62 => (0xbfd2409b8735cba2u64, 0xbc5bbe3a683c88abu64),
        -61 => (0xbfd201040d5cd6f8u64, 0xbc783c0f25860ef6u64),
        -60 => (0xbfd1c1142e274118u64, 0xbc716e4786887a99u64),
        -59 => (0xbfd180cb6eb4fd19u64, 0x3c7eae4d27345589u64),
        -58 => (0xbfd14029537b306fu64, 0x3c7fb74d519d2459u64),
        -57 => (0xbfd0ff2d60434581u64, 0xbc6e651fd7f7a74du64),
        -56 => (0xbfd0bdd71829fcf2u64, 0xbc741577ee04992fu64),
        -55 => (0xbfd07c25fd9e7d9bu64, 0xbc3db665dd36454fu64),
        -54 => (0xbfd03a199261633cu64, 0x3c605d02ba15797eu64),
        -53 => (0xbfcfef62af0797b9u64, 0xbc53e433136cb956u64),
        -52 => (0xbfcf69d99accc7b6u64, 0x3c559f115f566940u64),
        -51 => (0xbfcee396e770e14du64, 0x3c5ca5ed72f8c813u64),
        -50 => (0xbfce5c9992edb44eu64, 0x3c1c83b21584a2e1u64),
        -49 => (0xbfcdd4e099d6659au64, 0xbc69acf4320d2b16u64),
        -48 => (0xbfcd4c6af7557c93u64, 0x3c6ba7c55a192c9cu64),
        -47 => (0xbfccc337a52aedd0u64, 0xbc60d55e32e9e3aau64),
        -46 => (0xbfcc39459baa2327u64, 0xbc6467d8ba38d128u64),
        -45 => (0xbfcbae93d1b800eau64, 0x3c514c368d3ed6e2u64),
        -44 => (0xbfcb23213cc8e86cu64, 0xbc575fc781b57ebcu64),
        -43 => (0xbfca96ecd0deb7c4u64, 0xbc664b7c96a5f039u64),
        -42 => (0xbfca09f58086c6c2u64, 0x3c573d241f23d17bu64),
        -41 => (0xbfc97c3a3cd7e119u64, 0xbc473bd91cee6321u64),
        -40 => (0xbfc8edb9f5703dc0u64, 0x3c6c7c46b071f2beu64),
        -39 => (0xbfc85e7398737374u64, 0x3c6824ca78e64c6eu64),
        -38 => (0xbfc7ce6612886a6du64, 0xbc5aca4ae8e6a997u64),
        -37 => (0xbfc73d904ed74b33u64, 0x3c68c171f770daadu64),
        -36 => (0xbfc6abf137076a8eu64, 0x3c5684892395f0f8u64),
        -35 => (0xbfc61987b33d329eu64, 0xbc60d204d4ea70e5u64),
        -34 => (0xbfc58652aa180903u64, 0x3c3f5921deffa626u64),
        -33 => (0xbfc4f25100b03219u64, 0x3c1b72cd4624cbf9u64),
        -32 => (0xbfc45d819a94b14bu64, 0x3c6e8734d1773206u64),
        -31 => (0xbfc3c7e359c9266au64, 0x3c60842acdfc6f6du64),
        -30 => (0xbfc331751ec3a814u64, 0xbc52805e3084d708u64),
        -29 => (0xbfc29a35c86a9b1au64, 0x3c5c7102222c90e8u64),
        -28 => (0xbfc20224341286e4u64, 0xbc65584f7e54ac3bu64),
        -27 => (0xbfc1693f3d7be6dau64, 0x3c4032cf1abd6d20u64),
        -26 => (0xbfc0cf85bed0f8b7u64, 0xbc6b845f0ba4c2f7u64),
        -25 => (0xbfc034f690a387deu64, 0x3c40235c094638d1u64),
        -24 => (0xbfbf332113d56b1fu64, 0x3c31065895048dd3u64),
        -23 => (0xbfbdfaa500017c2du64, 0x3c5a29bf041e3051u64),
        -22 => (0xbfbcc0768d4175a6u64, 0x3c54426ffa41e566u64),
        -21 => (0xbfbb84935fc8c257u64, 0xbc5ca6876eff4778u64),
        -20 => (0xbfba46f918837cb7u64, 0xbc55f8685c2d6c49u64),
        -19 => (0xbfb907a55511e032u64, 0x3c413e2563eb1470u64),
        -18 => (0xbfb7c695afc3b424u64, 0x3c5a1e45e4342b1cu64),
        -17 => (0xbfb683c7bf93b074u64, 0x3c55bc247313d440u64),
        -16 => (0xbfb53f391822dbc7u64, 0x3c476816bad9b837u64),
        -15 => (0xbfb3f8e749b3e342u64, 0xbc41ec18beddfe82u64),
        -14 => (0xbfb2b0cfe1266bd4u64, 0xbc5ee7fcb492566du64),
        -13 => (0xbfb166f067f25cfeu64, 0x3c56d2bbc780c614u64),
        -12 => (0xbfb01b466423250au64, 0xbc4a5cd4f184b5b9u64),
        -11 => (0xbfad9b9eb0a5ed76u64, 0x3c22761fa17ada64u64),
        -10 => (0xbfaafd11874c009eu64, 0x3c4cf44c054e647au64),
        -9 => (0xbfa85ae0438b37cbu64, 0xbc42add35f3721e6u64),
        -8 => (0xbfa5b505d5b6f268u64, 0x3c463dce863d76ccu64),
        -7 => (0xbfa30b7d271980f7u64, 0xbc327e768235b188u64),
        -6 => (0xbfa05e4119ea5d89u64, 0x3c4c7f486a4b6b08u64),
        -5 => (0xbf9b5a991288ad16u64, 0xbc2796903c9c6f2bu64),
        -4 => (0xbf95f134923757f3u64, 0xbc160f6913af3a8au64),
        -3 => (0xbf90804a4c683d8fu64, 0x3c213b4bfe72bd96u64),
        -2 => (0xbf860f9f985bc9f4u64, 0xbc26f5818b4d9c3eu64),
        -1 => (0xbf761eea3847077bu64, 0xbc1148b699a8618bu64),
        0 => (0x0000000000000000u64, 0x0000000000000000u64),
        1 => (0x3f763da9fb33356eu64, 0xbc1ed665473248c8u64),
        2 => (0x3f864d1f3bc03077u64, 0x3c1bdf2b293de8a7u64),
        3 => (0x3f90c57a1b9fe12fu64, 0x3c3738f9a20da47eu64),
        4 => (0x3f966c34c5615d0fu64, 0xbc3183ab7149735cu64),
        5 => (0x3f9c1aca777db772u64, 0xbc323bfc562784d8u64),
        6 => (0x3fa0e8a30eb37901u64, 0x3c286be4bb284ff4u64),
        7 => (0x3fa3c7d958de7069u64, 0xbc46f0fcf9d3d94au64),
        8 => (0x3fa6ab0d9f3121ecu64, 0x3c44c5c95b8c2155u64),
        9 => (0x3fa992456e48fee8u64, 0x3c1edc16e24f717au64),
        10 => (0x3fac7d865a7a3440u64, 0x3c403a1727c57b53u64),
        11 => (0x3faf6cd5ffda635eu64, 0x3c419048eec50a13u64),
        12 => (0x3fb1301d0125b50au64, 0x3c53aefc6bb64c63u64),
        13 => (0x3fb2abdc06c31cc0u64, 0xbc51b514b36ca5c7u64),
        14 => (0x3fb429aaea92ddfbu64, 0x3c4a080ca1d92c37u64),
        15 => (0x3fb5a98c8a58e512u64, 0x3c520355cf75584fu64),
        16 => (0x3fb72b83c7d517aeu64, 0xbc49041b9d78a75bu64),
        17 => (0x3fb8af9388c8de9cu64, 0xbc51023d1970f6bfu64),
        18 => (0x3fba35beb6fcb754u64, 0xbc4a4b384b6971beu64),
        19 => (0x3fbbbe084045cd3au64, 0xbc55386352ef6073u64),
        20 => (0x3fbd4873168b9aa8u64, 0xbc5fe91ff5d9bc3eu64),
        21 => (0x3fbed5022fcd91ccu64, 0xbc5df98027bb78b8u64),
        22 => (0x3fc031dc431466b2u64, 0xbc51c453f5abdb59u64),
        23 => (0x3fc0fa4c8beee4b1u64, 0x3c554bf4a4a52f6du64),
        24 => (0x3fc1c3d373ab11c3u64, 0x3c5b07eb6c70572du64),
        25 => (0x3fc28e727d9531fau64, 0xbc64faa9042c2d70u64),
        26 => (0x3fc35a2b2f13e6e9u64, 0x3c55e99cca074ec9u64),
        27 => (0x3fc426ff0fab1c05u64, 0xbc6261d461f86bedu64),
        28 => (0x3fc4f4efa8fef709u64, 0x3c684ba2beb44954u64),
        29 => (0x3fc5c3fe86d6cc80u64, 0xbc410adcd6381aa4u64),
        30 => (0x3fc6942d3720185au64, 0x3be23aa6da0ea709u64),
        31 => (0x3fc7657d49f17ab1u64, 0xbc6c6be17455b8fau64),
        32 => (0x3fc837f0518db8a9u64, 0x3c6bd1ab48c60b91u64),
        33 => (0x3fc90b87e266c18au64, 0xbc658c61c79fee0fu64),
        34 => (0x3fc9e0459320b7fau64, 0x3c69390c21b2cd2du64),
        35 => (0x3fcab62afc94ff86u64, 0x3c628c468ec6e75eu64),
        36 => (0x3fcb8d39b9d54e55u64, 0x3c5c51540bd151e6u64),
        37 => (0x3fcc6573682ec32cu64, 0x3c56a72c366fb432u64),
        38 => (0x3fcd3ed9a72cffb7u64, 0x3c643792533c143au64),
        39 => (0x3fce196e189d4724u64, 0x3c50007c8a2d63ceu64),
        40 => (0x3fcef5326091a112u64, 0xbc6497dbb83d8512u64),
        41 => (0x3fcfd228256400ddu64, 0x3c27ee035483065fu64),
        42 => (0x3fd0582887dcb8a8u64, 0xbc5ef3691c309278u64),
        43 => (0x3fd0c7d76542a25bu64, 0x3c7c704439410ccfu64),
        44 => (0x3fd13821818624b4u64, 0x3c489b7a04ef80d0u64),
        45 => (0x3fd1a907b474015eu64, 0xbc6b5da174dbac4du64),
        46 => (0x3fd21a8ad704f340u64, 0x3c73c1a3b69062f0u64),
        47 => (0x3fd28cabc35f4f7au64, 0xbc78d27430b906a8u64),
        48 => (0x3fd2ff6b54d8a89cu64, 0x3c7d4397afec42e2u64),
        49 => (0x3fd372ca67f77436u64, 0xbc7c4c910e561f34u64),
        50 => (0x3fd3e6c9da74b29bu64, 0xbc72cc2749655f8cu64),
        51 => (0x3fd45b6a8b3d9907u64, 0x3c312f52c84d8222u64),
        52 => (0x3fd4d0ad5a753e07u64, 0x3c7f0a83c49d86a6u64),
        53 => (0x3fd546932976483bu64, 0x3c54bb188090d32au64),
        54 => (0x3fd5bd1cdad49f6au64, 0xbc79134ffb89b14cu64),
        55 => (0x3fd6344b525f1ff5u64, 0xbc7ad43d48cbc431u64),
        56 => (0x3fd6ac1f752150a5u64, 0x3c78c93015191eb3u64),
        57 => (0x3fd7249a29651adcu64, 0x3c3c4b1b816986a2u64),
        58 => (0x3fd79dbc56b48522u64, 0xbc71641b3dfc668au64),
        59 => (0x3fd81786e5db7023u64, 0xbc6f1214dab6f239u64),
        60 => (0x3fd891fac0e95613u64, 0xbc6c1e0bf205a4b8u64),
        61 => (0x3fd90d18d3330c7fu64, 0x3c5dbe1c5313b669u64),
        62 => (0x3fd988e209548892u64, 0x3c7127d9e29b8f31u64),
        63 => (0x3fda05575132a5ccu64, 0x3c6038ae44f73e65u64),
        _ => (0, 0),
    };
    Compensated::new(hi, lo)
}


// ---------------------------------------------------------------------------
// The Taylor series of expm1

/// The terms `m^(k-1) * xpow / (a*k + b)!` of a Taylor series for `k` in
/// `k..=last`, each added in double-double precision to `r`, where `xpow`
/// is the power that the term before used: the sum and the last power.
pub open spec fn series_quad(
    m: (u64, u64),
    k: int,
    last: int,
    a: int,
    b: int,
    r: (u64, u64),
    xpow: (u64, u64),
) -> ((u64, u64), (u64, u64))
    decreases last - k + 1,
{
    if k > last {
        (r, xpow)
    } else {
        let xp = mul_qq_spec(xpow, m);
        series_quad(
            m,
            k + 1,
            last,
            a,
            b,
            addfast_qq_spec(r, mul_qq_spec(reciprocal_factorial_spec(a * k + b), xp)),
            xp,
        )
    }
}

/// The terms of the same series for `k` in `k..=last` which only reach the
/// compensate, each added in binary64 to `rd`, with the leading part `mh`
/// of the multiplier, where `xpd` is the power that the term before used.
pub open spec fn series_tail(mh: u64, k: int, last: int, a: int, b: int, rd: u64, xpd: u64) -> u64
    decreases last - k + 1,
{
    if k > last {
        rd
    } else {
        let xp = fmul(xpd, mh);
        series_tail(
            mh,
            k + 1,
            last,
            a,
            b,
            fadd(rd, fmul(reciprocal_factorial_spec(a * k + b).0, xp)),
            xp,
        )
    }
}

/// A Taylor series summed from its term `k0` on: the terms up to `nquad`
/// in double-double precision, those up to `n` in binary64, and the two
/// sums added.
pub open spec fn series_sum(
    m: (u64, u64),
    k0: int,
    nquad: int,
    n: int,
    a: int,
    b: int,
    r: (u64, u64),
    xpow: (u64, u64),
) -> (u64, u64) {
    let q = series_quad(m, k0, nquad, a, b, r, xpow);
    addfast_qd_spec(q.0, series_tail(m.0, nquad + 1, n, a, b, 0, q.1.0))
}

/// The factorial indices `a*k + b` that `series_sum` reads lie in the table.
pub open spec fn series_in_table(k0: int, nquad: int, n: int, a: int, b: int) -> bool {
    &&& 0 <= a <= 2
    &&& 0 <= b <= 1
    &&& 0 <= k0
    &&& nquad < 30
    &&& nquad < k0 || a * nquad + b < 30
    &&& n <= nquad || (-1 <= nquad && n < 30 && a * n + b < 30)
}

/// Sums a Taylor series from the term `k0` on, with the multiplier `m`
/// between the terms and the factorial `(a*k + b)!` under the term `k`:
/// in double-double precision up to the term `nquad`, then in binary64 up
/// to the term `n`, where the terms only reach the compensate.
pub fn series(m: Df64, k0: i32, nquad: i32, n: i32, a: i32, b: i32, r0: Df64, xpow0: Df64) -> (r: Df64)
    requires
        series_in_table(k0 as int, nquad as int, n as int, a as int, b as int),
    ensures
        parts(r) == series_sum(
            parts(m),
            k0 as int,
            nquad as int,
            n as int,
            a as int,
            b as int,
            parts(r0),
            parts(xpow0),
        ),
{
    let mut r = r0;
    let mut xpow = xpow0;
    let ghost q = series_quad(parts(m), k0 as int, nquad as int, a as int, b as int, parts(r), parts(xpow));
    let mut k: i32 = k0;
    while k <= nquad
        invariant
            k0 <= k,
            k <= nquad + 1 || k == k0,
            series_in_table(k0 as int, nquad as int, n as int, a as int, b as int),
            series_quad(parts(m), k as int, nquad as int, a as int, b as int, parts(r), parts(xpow)) == q,
        decreases nquad + 1 - k,
    {
        proof {
            vstd::arithmetic::mul::lemma_mul_inequality(k as int, nquad as int, a as int);
            vstd::arithmetic::mul::lemma_mul_nonnegative(a as int, k as int);
        }
        xpow = mul_qq(xpow, m);
        r = addfast_qq(r, mul_qq(reciprocal_factorial(a * k + b), xpow));
        k = k + 1;
    }
    let mh = m.hi();
    let mut r_d: u64 = 0;
    let mut xpow_d: u64 = xpow.hi();
    let ghost tail = series_tail(mh, nquad + 1, n as int, a as int, b as int, r_d, xpow_d);
    let mut k: i32 = nquad + 1;
    while k <= n
        invariant
            nquad + 1 <= k,
            k <= n + 1 || k == nquad + 1,
            series_in_table(k0 as int, nquad as int, n as int, a as int, b as int),
            series_tail(mh, k as int, n as int, a as int, b as int, r_d, xpow_d) == tail,
        decreases n + 1 - k,
    {
        proof {
            vstd::arithmetic::mul::lemma_mul_inequality(k as int, n as int, a as int);
            vstd::arithmetic::mul::lemma_mul_nonnegative(a as int, k as int);
        }
        xpow_d = mul_enc(xpow_d, mh);
        let c = reciprocal_factorial(a * k + b);
        r_d = add_enc(r_d, mul_enc(c.hi(), xpow_d));
        k = k + 1;
    }
    addfast_qd(r, r_d)
}

/// `expm1(x)` by its Taylor series: the terms up to `x^nquad` in
/// double-double precision, the terms up to `x^n` in binary64.
pub open spec fn expm1_kernel_spec(x: (u64, u64), nquad: int, n: int) -> (u64, u64) {
    let xpow = square_q_spec(x);
    let r = addfast_qq_spec(x, (fmul(xpow.0, HALF), fmul(xpow.1, HALF)));
    series_sum(x, 3, nquad, n, 1, 0, r, xpow)
}

/// `expm1(x)` for `|x.hi| < 1` by its Taylor series, with the terms up to
/// `x^nquad` in double-double precision and those up to `x^n` in binary64.
pub fn expm1_kernel(x: Df64, nquad: i32, n: i32) -> (r: Df64)
    requires
        enc_lt(fabs(x.hi_part()), ONE),
        nquad < 30,
        n <= nquad || (-1 <= nquad && n < 30),
    ensures
        parts(r) == expm1_kernel_spec(parts(x), nquad as int, n as int),
{
    let xp0 = square_q(x);
    let half_sq = Compensated::new(mul_enc(xp0.hi(), HALF), mul_enc(xp0.lo(), HALF));
    let r = addfast_qq(x, half_sq);
    series(x, 3, nquad, n, 1, 0, r, xp0)
}

// ---------------------------------------------------------------------------
// Reduction and the small argument

/// `expm1(n * alpha + y)` from the table entry for `n` and the series for
/// `y`: `expm1(n * alpha) + exp(n * alpha) * expm1(y)`.
pub open spec fn expm1_small_spec(n: int, y: (u64, u64)) -> (u64, u64) {
    let expm1_n = expm1_alphas_spec(n);
    let s = fast_two_sum(ONE, expm1_n.0);
    let exp_n = fast_two_sum(s.0, fadd(expm1_n.1, s.1));
    let expm1_y = expm1_kernel_spec(y, 6, 10);
    addfast_qq_spec(expm1_n, mul_qq_spec(expm1_y, exp_n))
}

/// `2 * |y|` is at most `ALPHA_T_HI`, so that `|y| < 1`.
proof fn lemma_small_bound(h: u64)
    requires
        enc_le(fmul(TWO, fabs(h)), ALPHA_T_HI),
    ensures
        enc_lt(fabs(h), ONE),
{
    let a = fabs(h);
    lemma_fabs(h);
    lemma2_to64();
    lemma2_to64_rest();
    assert(exp_field(TWO) == 1024 && frac_field(TWO) == 0 && !sign_bit(TWO));
    assert(exp_field(ONE) == 1023 && frac_field(ONE) == 0 && !sign_bit(ONE));
    assert(exp_field(ALPHA_T_HI) == 1015 && !sign_bit(ALPHA_T_HI));
    lemma_units_bounds(ALPHA_T_HI);
    lemma_pow2_adds(52, 1015);
    lemma_pow2_adds(52, 1022);
    lemma_pow2_adds(52, 1023);
    lemma_pow2_pos(2100);
    assert(units(ALPHA_T_HI) < pow2(1067));
    assert(units(ONE) == pow2(1074));
    assert(scaled(TWO) == pow2(1075));
    lemma_pow2_le(1067, 2100);
    if enc_is_finite(a) {
        let u = units(a);
        lemma_pow2_adds(1, 1074);
        lemma_mul_is_associative(2, pow2(1074) as int, u as int);
        assert(scaled(TWO) * scaled(a) == (2 * u) * pow2(1074)) by {
            lemma_mul_is_commutative(pow2(1074) as int, u as int);
            lemma_mul_is_associative(2, u as int, pow2(1074) as int);
        }
        lemma_round_signed_shift((2 * u) as int, false);
        lemma_round_signed_value((2 * u) as int, false);
        lemma_representable_small(significand(a), unit_shift(a) + 1);
        lemma_pow2_adds(unit_shift(a), 1);
        lemma_mul_is_associative(significand(a) as int, pow2(unit_shift(a)) as int, 2);
        assert(2 * u == significand(a) * pow2(unit_shift(a) + 1));
        if u >= pow2(1074) {
            lemma_pow2_le(1067, 1075);
        }
    }
}

/// `expm1(n * alpha + y)` for a table index `n` and `2 * |y.hi| <=
/// ALPHA_T_HI`.
pub fn expm1_small(n: i32, y: Df64) -> (r: Df64)
    requires
        -64 <= n < 64,
        enc_le(fmul(TWO, fabs(y.hi_part())), ALPHA_T_HI),
    ensures
        parts(r) == expm1_small_spec(n as int, parts(y)),
{
    let expm1_n = expm1_alphas(n);
    let exp_n = addfast_dq(ONE, expm1_n);
    proof {
        lemma_small_bound(y.hi_part());
    }
    let expm1_y = expm1_kernel(y, 6, 10);
    addfast_qq(expm1_n, mul_qq(expm1_y, exp_n))
}

/// The reduction `x = n * alpha + z`: `n` is `x.hi / alpha` rounded to an
/// integer, and `n * alpha` is subtracted in two steps, `n * ALPHA_T` in
/// double-double precision and `n * ALPHA_CORR` in binary64.
pub open spec fn reduce_mod_alpha_spec(x: (u64, u64)) -> (u64, (u64, u64)) {
    let n = fround(fmul(x.0, INV_ALPHA));
    let na = mul_qd_spec((ALPHA_T_HI, ALPHA_T_LO), n);
    let z_raw = addfast_qq_spec(x, neg_parts(na));
    let s = fast_two_sum(z_raw.0, fneg(fmul(n, ALPHA_CORR)));
    (n, fast_two_sum(s.0, fadd(z_raw.1, s.1)))
}

/// Reduces `x` modulo `alpha`: `x = n * alpha + z`, with the integer `n`
/// as a binary64 number.
pub fn reduce_mod_alpha(x: Df64) -> (r: (u64, Df64))
    ensures
        r.0 == reduce_mod_alpha_spec(parts(x)).0,
        parts(r.1) == reduce_mod_alpha_spec(parts(x)).1,
{
    let n = round_away_enc(mul_enc(x.hi(), INV_ALPHA));
    let na = mul_dq(n, Compensated::new(ALPHA_T_HI, ALPHA_T_LO));
    let z_raw = subfast_qq(x, na);
    let z = subfast_qd(z_raw, mul_enc(n, ALPHA_CORR));
    (n, z)
}

/// `x` reduced to `2^m * exp(n * alpha) * exp(y)`: `m`, and `expm1` of the
/// rest.
pub open spec fn expm1_split_spec(x: (u64, u64)) -> (int, (u64, u64)) {
    let red = reduce_mod_alpha_spec(x);
    let k = to_i32_spec(red.0);
    let m = (k + 64) / 128;
    let n = k - 128 * m;
    (m, expm1_small_spec(n, red.1))
}

/// The reduced argument is small enough for the series: `2 * |y| <=
/// ALPHA_T_HI` for the `y` that the reduction leaves.
pub open spec fn reduction_in_range(x: (u64, u64)) -> bool {
    enc_le(fmul(TWO, fabs(reduce_mod_alpha_spec(x).1.0)), ALPHA_T_HI)
}

/// Splits `exp(x) = 2^m * (1 + expm1_y)`: reduces `x` modulo `alpha`, and
/// the multiple of `alpha` modulo 128.
pub fn expm1_split(x: Df64) -> (r: (i32, Df64))
    requires
        reduction_in_range(parts(x)),
    ensures
        r.0 == expm1_split_spec(parts(x)).0,
        parts(r.1) == expm1_split_spec(parts(x)).1,
        -0x100_0000 <= r.0 <= 0x100_0000,
{
    let (k, y) = reduce_mod_alpha(x);
    let ki = to_i32(k);
    let (m, n) = reduce_mod_128(ki);
    proof {
        vstd::arithmetic::div_mod::lemma_fundamental_div_mod_converse(
            ki + 64,
            128,
            m as int,
            n + 64,
        );
    }
    let expm1_y = expm1_small(n, y);
    (m, expm1_y)
}

/// Whether `expm1_split` accepts `x`: the test that `expm1_small` makes on
/// the reduced argument.
pub fn reduction_ok(x: Df64) -> (r: bool)
    ensures
        r == reduction_in_range(parts(x)),
{
    let (_k, y) = reduce_mod_alpha(x);
    le_enc(mul_enc(TWO, abs_enc(y.hi())), ALPHA_T_HI)
}

// ---------------------------------------------------------------------------
// The exponential

/// `log(MAX)`, rounded to binary64: beyond it `exp` overflows.
pub const LOG_MAX: u64 = 0x4086_2e42_fefa_39efu64;

/// Positive infinity.
pub const INFINITY: u64 = 0x7ff0_0000_0000_0000u64;

/// Minus one.
pub const MINUS_ONE: u64 = 0xbff0_0000_0000_0000u64;

/// `exp(x)` and `expm1(x)` accept `x`: either its leading part is NaN or
/// at least `LOG_MAX` in magnitude, or the reduction leaves a small enough
/// argument for the series.
pub open spec fn exp_accepts(x: (u64, u64)) -> bool {
    !enc_lt(fabs(x.0), LOG_MAX) || reduction_in_range(x)
}

/// `2^m * (1 + y)` for the split `(m, y)` of `x`.
pub open spec fn exp_from_split(x: (u64, u64)) -> (u64, u64) {
    let sp = expm1_split_spec(x);
    let exp_m = fldexp(ONE, sp.0);
    let s = fast_two_sum(ONE, sp.1.0);
    let exp_y = fast_two_sum(s.0, fadd(sp.1.1, s.1));
    (fmul(exp_y.0, exp_m), fmul(exp_y.1, exp_m))
}

/// The exponential: NaN is kept, beyond `LOG_MAX` the result is infinity
/// or zero, and otherwise `2^m * (1 + expm1_y)` from `expm1_split`.
pub open spec fn exp_spec(x: (u64, u64)) -> (u64, u64) {
    if !enc_lt(fabs(x.0), LOG_MAX) {
        if enc_is_nan(x.0) {
            x
        } else if enc_lt(0, x.0) {
            (INFINITY, 0)
        } else {
            (0, 0)
        }
    } else {
        exp_from_split(x)
    }
}

/// `exp(x) - 1`: NaN is kept, beyond `LOG_MAX` the result is infinity or
/// minus one; where `m == 0` the series result itself, and otherwise
/// `2^m * (1 + expm1_y) - 1`.
pub open spec fn expm1_spec(x: (u64, u64)) -> (u64, u64) {
    if !enc_lt(fabs(x.0), LOG_MAX) {
        if enc_is_nan(x.0) {
            x
        } else if enc_lt(0, x.0) {
            (INFINITY, 0)
        } else {
            (MINUS_ONE, 0)
        }
    } else if expm1_split_spec(x).0 == 0 {
        expm1_split_spec(x).1
    } else {
        add_qd_spec(exp_from_split(x), fneg(ONE))
    }
}

/// The exponential function.
pub fn exp(x: Df64) -> (r: Df64)
    requires
        exp_accepts(parts(x)),
    ensures
        parts(r) == exp_spec(parts(x)),
{
    if !lt_enc(abs_enc(x.hi()), LOG_MAX) {
        if is_nan(x) {
            return x;
        } else if lt_enc(0, x.hi()) {
            return Compensated::new(INFINITY, 0);
        } else {
            return Compensated::new(0, 0);
        }
    }
    let (m, expm1_y) = expm1_split(x);
    let exp_m = ldexp_enc(ONE, m);
    let exp_y = addfast_dq(ONE, expm1_y);
    mul_pow2(exp_y, exp_m)
}

/// `exp(x) - 1`, accurate also near zero.
pub fn expm1(x: Df64) -> (r: Df64)
    requires
        exp_accepts(parts(x)),
    ensures
        parts(r) == expm1_spec(parts(x)),
{
    if !lt_enc(abs_enc(x.hi()), LOG_MAX) {
        if is_nan(x) {
            return x;
        } else if lt_enc(0, x.hi()) {
            return Compensated::new(INFINITY, 0);
        } else {
            return Compensated::new(MINUS_ONE, 0);
        }
    }
    let (m, expm1_y) = expm1_split(x);
    if m == 0 {
        return expm1_y;
    }
    let exp_m = ldexp_enc(ONE, m);
    let exp_y = addfast_dq(ONE, expm1_y);
    let exp_x = mul_pow2(exp_y, exp_m);
    sub_qd(exp_x, ONE)
}

// ---------------------------------------------------------------------------
// The logarithms

/// `log` and `log1p` accept a binary64 approximation `y0` of the logarithm
/// of the leading part: where it is finite, `exp` and `expm1` accept it.
pub open spec fn log_accepts(y0: u64) -> bool {
    enc_is_finite(y0) ==> exp_accepts((y0, 0))
}

/// The logarithm of `x` from a binary64 approximation `y0` of the
/// logarithm of `x.hi`: `y0` itself where it is not finite, and otherwise
/// `y0 + 2 (x - x0) / (x + x0)` with `x0 = exp(y0)`.
pub open spec fn log_spec(x: (u64, u64), y0: u64) -> (u64, u64) {
    if !enc_is_finite(y0) {
        (y0, 0)
    } else {
        let x0 = exp_spec((y0, 0));
        let q = mul_qq_spec(
            reciprocal_q_spec(addfast_qq_spec(x, x0)),
            addfast_qq_spec(x, neg_parts(x0)),
        );
        add_qd_spec((fmul(q.0, TWO), fmul(q.1, TWO)), y0)
    }
}

/// `log(1 + x)` from a binary64 approximation `y0` of `log(1 + x.hi)`:
/// `y0` itself where it is not finite, and otherwise
/// `y0 + 2 (x - x0) / (2 + x + x0)` with `x0 = expm1(y0)`.
pub open spec fn log1p_spec(x: (u64, u64), y0: u64) -> (u64, u64) {
    if !enc_is_finite(y0) {
        (y0, 0)
    } else {
        let x0 = expm1_spec((y0, 0));
        let q = mul_qq_spec(
            reciprocal_q_spec(addfast_qq_spec(add_qd_spec(x, TWO), x0)),
            addfast_qq_spec(x, neg_parts(x0)),
        );
        add_qd_spec((fmul(q.0, TWO), fmul(q.1, TWO)), y0)
    }
}

/// The natural logarithm of `x`, from the binary64 logarithm `y0` of its
/// leading part by one step of the series `log(x) = log(x0) + 2 (x - x0) /
/// (x + x0) + O(x - x0)^3` (Abramowitz and Stegun, 4.1.30).
pub fn log(x: Df64, y0: u64) -> (r: Df64)
    requires
        log_accepts(y0),
    ensures
        parts(r) == log_spec(parts(x), y0),
{
    let seed = Compensated::new(y0, 0);
    if !is_finite(seed) {
        return seed;
    }
    let x0 = exp(seed);
    let corr = mul_pow2(div_qq(subfast_qq(x, x0), addfast_qq(x, x0)), TWO);
    add_dq(y0, corr)
}

/// `log(1 + x)`, from the binary64 `log(1 + x.hi)` `y0` by the same step
/// with `expm1` in place of `exp`.
pub fn log1p(x: Df64, y0: u64) -> (r: Df64)
    requires
        log_accepts(y0),
    ensures
        parts(r) == log1p_spec(parts(x), y0),
{
    let seed = Compensated::new(y0, 0);
    if !is_finite(seed) {
        return seed;
    }
    let x0 = expm1(seed);
    let corr = mul_pow2(div_qq(subfast_qq(x, x0), addfast_qq(add_dq(TWO, x), x0)), TWO);
    add_dq(y0, corr)
}

// ---------------------------------------------------------------------------
// Laws of the exponential

/// The reduction of an argument below `LOG_MAX` in magnitude leaves a
/// power of two `2^m` with `-1024 <= m <= 1024`: `|x.hi| < LOG_MAX` gives
/// `|x.hi * 128 / log(2)| < 131072.5`, so that the multiple `k` of `alpha`
/// is at most 131072 in magnitude.
#[verifier::rlimit(50)]
#[verifier::spinoff_prover]
pub proof fn law_split_exponent(x: (u64, u64))
    requires
        enc_is_finite(x.0),
        enc_lt(fabs(x.0), LOG_MAX),
    ensures
        -1024 <= expm1_split_spec(x).0 <= 1024,
{
    lemma2_to64();
    lemma2_to64_rest();
    let a = x.0;
    lemma_fabs(a);
    let p = pow2(1074) as int;
    lemma_pow2_pos(1074);
    // the constants
    assert(exp_field(LOG_MAX) == 1032 && frac_field(LOG_MAX) == 0x2E42FEFA39EF + 0x6_0000_0000_0000);
    assert(exp_field(INV_ALPHA) == 1030 && frac_field(INV_ALPHA) == 0x71547652B82FE && !sign_bit(INV_ALPHA));
    let sl: int = 0x162E42FEFA39EF;
    let si: int = 0x171547652B82FE;
    assert(units(a) < sl * pow2(1031));
    assert(scaled(INV_ALPHA) == si * pow2(1029));
    // |v| < sl * si * 2^2060 < 131072 * 2^2148
    let v = scaled(a) * scaled(INV_ALPHA);
    let mv = magnitude(v) as int;
    assert(mv == units(a) * (si * pow2(1029))) by {
        if scaled(a) < 0 {
            lemma_mul_unary_negation(units(a) as int, si * pow2(1029));
        }
    }
    assert(mv < (sl * pow2(1031)) * (si * pow2(1029))) by {
        lemma_pow2_pos(1029);
        lemma_mul_strict_inequality(units(a) as int, sl * pow2(1031), si * pow2(1029));
    }
    let big: int = 131072int * 0x100_0000_0000_0000_0000_0000int;
    assert((sl * pow2(1031)) * (si * pow2(1029)) < big * pow2(2060)) by {
        lemma_pow2_adds(1031, 1029);
        lemma_mul_is_associative(sl, pow2(1031) as int, si * pow2(1029));
        lemma_mul_is_commutative(pow2(1031) as int, si * pow2(1029));
        lemma_mul_is_associative(si, pow2(1029) as int, pow2(1031) as int);
        lemma_mul_is_associative(sl, si, pow2(2060) as int);
        lemma_pow2_pos(2060);
        lemma_mul_strict_inequality(sl * si, big, pow2(2060) as int);
    }
    assert(big * pow2(2060) == 131072 * pow2(2148)) by {
        lemma_pow2_adds(64, 24);
        lemma_pow2_adds(88, 2060);
        assert(pow2(24) == 0x100_0000);
        assert(pow2(64) == 0x1_0000_0000_0000_0000);
        assert(0x1_0000_0000_0000_0000int * 0x100_0000int == 0x100_0000_0000_0000_0000_0000int);
        assert(pow2(88) == 0x100_0000_0000_0000_0000_0000);
        lemma_mul_is_associative(131072, pow2(88) as int, pow2(2060) as int);
    }
    let t = pow2(2148) as int;
    assert(mv < 131072 * t);
    // the rounded product r: |r| < 131072.5 in value
    lemma_rnd_relative(mv as nat, -1074);
    let rr = rnd(mv as nat, -1074) as int;
    assert(pow2(2148) == pow2(1074) * pow2(1074)) by {
        lemma_pow2_adds(1074, 1074);
    }
    assert(pow2(1126) * 2 <= t) by {
        lemma_pow2_le(1127, 2148);
        lemma_pow2_adds(1, 1126);
    }
    assert(0x20_0000_0000_0000 * (rr * p) <= 0x20_0000_0000_0000 * mv + mv + pow2(1126));
    assert(0x20_0000_0000_0000 * (rr * p) < 0x20_0000_0000_0000 * (131073 * t));
    assert(rr * p < 131073 * (p * p));
    assert(rr < 131073 * p) by {
        lemma_mul_is_associative(131073, p, p);
        lemma_mul_strict_inequality_converse(rr, 131073 * p, p);
    }
    assert(!overflows(rr as nat)) by {
        lemma_pow2_le(1092, 2098);
        lemma_pow2_adds(18, 1074);
        assert(pow2(18) == 262144);
    }
    let neg = sign_bit(a) != sign_bit(INV_ALPHA);
    let r = fmul(a, INV_ALPHA);
    assert(r == round_signed(v, -1074, neg));
    lemma_round_signed_relative(v, neg);
    assert(magnitude(scaled(r)) * p <= mv + (mv + pow2(1126)) / 0x20_0000_0000_0000 + 1) by {
        lemma_magnitude_mul(scaled(r), p);
    }
    let sr = scaled(r);
    let ms = magnitude(sr) as int;
    assert(ms * p < 131073 * t);
    assert(2 * ms < 262147 * p) by {
        lemma_mul_is_associative(262147, p, p);
        lemma_mul_is_associative(2, ms, p);
        assert((2 * ms) * p < (262147 * p) * p);
        lemma_mul_strict_inequality_converse(2 * ms, 262147 * p, p);
    }
    // rounded to the nearest integer, away from zero on ties
    let mq: int = magnitude(sr) + pow2(1073) as int;
    let q: int = mq / p;
    assert(pow2(1074) == 2 * pow2(1073)) by {
        lemma_pow2_adds(1, 1073);
    }
    assert(0 <= q <= 131073) by {
        lemma_fundamental_div_mod(mq, p);
        lemma_mod_bound(mq, p);
        lemma_mul_is_commutative(p, q);
        assert(mq < 131074 * p);
        if q > 131073 {
            lemma_mul_inequality(131074, q, p);
            assert(false);
        }
        if q < 0 {
            lemma_mul_inequality(q, -1, p);
            assert(false);
        }
    }
    let w = round_away_units(sr);
    assert(magnitude(w) == q * p);
    lemma_representable_small(q as nat, 1074);
    assert(!overflows((q * p) as nat)) by {
        lemma_mul_inequality(q, 131073, p);
        lemma_pow2_le(1092, 2098);
        lemma_pow2_adds(18, 1074);
        assert(pow2(18) == 262144);
    }
    lemma_round_exact(w, sign_bit(r));
    let n = fround(r);
    assert(scaled(n) == w);
    assert(w == (if sr < 0 { -q } else { q }) * p) by {
        lemma_mul_unary_negation(q, p);
    }
    let qs: int = if sr < 0 {
        -q
    } else {
        q
    };
    assert(trunc_units(w) == w) by {
        lemma_mul_is_commutative(p, qs);
        lemma_mul_unary_negation(p, qs);
        lemma_fundamental_div_mod_converse(w, p, qs, 0);
        lemma_fundamental_div_mod_converse(-w, p, -qs, 0);
        lemma_mul_unary_negation(qs, p);
    }
    assert(w / p == qs) by {
        lemma_fundamental_div_mod_converse(w, p, qs, 0);
    }
    assert(to_i32_spec(n) == qs);
}

/// `fldexp(1, m)` is `2^m`, a positive finite number, for
/// `-1074 <= m <= 1023`, and positive infinity for `m == 1024`.
proof fn lemma_pow2_enc(m: int)
    requires
        -1074 <= m <= 1024,
    ensures
        !sign_bit(fldexp(ONE, m)),
        m <= 1023 ==> enc_is_finite(fldexp(ONE, m)) && units(fldexp(ONE, m)) == pow2((m + 1074) as nat),
        m == 1024 ==> enc_is_infinite(fldexp(ONE, m)),
{
    lemma2_to64();
    lemma2_to64_rest();
    assert(exp_field(ONE) == 1023 && frac_field(ONE) == 0 && !sign_bit(ONE));
    lemma_pow2_adds(52, 1022);
    assert(units(ONE) == 1 * pow2(1074));
    let e = (m + 1074) as nat;
    crate::rounding::lemma_rnd_shift(1, m, 1074);
    crate::rounding::lemma_rnd_shift(1, 0, e);
    lemma_representable_small(1, e);
    assert(rnd(units(ONE), m) == pow2(e));
    if m <= 1023 {
        lemma_pow2_le(e, 2097);
        lemma_pow2_adds(1, 2097);
        lemma_pow2_pos(2097);
    }
    lemma_round_enc_value(false, units(ONE), m);
}

/// `1 + y` in double-double precision, as `exp` forms it, for a normalized
/// `y` at most one half in magnitude: a positive finite leading part
/// between one quarter and four.
#[verifier::rlimit(50)]
#[verifier::spinoff_prover]
proof fn lemma_one_plus_small(y0: u64, y1: u64)
    requires
        enc_is_finite(y0),
        enc_is_finite(y1),
        2 * units(y0) <= pow2(1074),
        pow2(53) * units(y1) <= units(y0),
    ensures
        ({
            let s = fast_two_sum(ONE, y0);
            let e0 = fast_two_sum(s.0, fadd(y1, s.1)).0;
            &&& enc_is_finite(e0)
            &&& !sign_bit(e0)
            &&& 4 * units(e0) >= pow2(1074)
            &&& units(e0) <= 4 * pow2(1074)
        }),
{
    lemma2_to64();
    lemma2_to64_rest();
    let p = pow2(1074) as int;
    lemma_pow2_pos(1074);
    assert(exp_field(ONE) == 1023 && frac_field(ONE) == 0 && !sign_bit(ONE));
    lemma_pow2_adds(52, 1022);
    assert(scaled(ONE) == p);
    lemma_pow2_adds(1, 1073);
    lemma_pow2_adds(1, 1074);
    lemma_pow2_adds(1, 1072);
    lemma_representable_small(1, 1072);
    lemma_representable_small(1, 1073);
    lemma_representable_small(1, 1074);
    lemma_representable_small(1, 1075);
    lemma_representable_small(1, 1076);
    assert(representable(pow2(1072)) && representable(pow2(1073)) && representable(pow2(1074))
        && representable(pow2(1075)) && representable(pow2(1076)));
    assert(!overflows(pow2(1076))) by {
        lemma_pow2_le(1076, 2097);
        lemma_pow2_adds(1, 2097);
        lemma_pow2_pos(2097);
    }
    lemma_pow2_adds(2, 1074);
    lemma_pow2_le(1076, 2097);
    lemma_pow2_pos(1072);
    // s0 = 1 + y0, between one half and two
    let v = p + scaled(y0);
    assert(pow2(1073) <= v <= 2 * p);
    crate::accuracy::lemma_rnd_monotone_at(v as nat, pow2(1073));
    crate::accuracy::lemma_rnd_monotone_at(v as nat, pow2(1075));
    lemma_round_signed_value(v, sign_bit(ONE) && sign_bit(y0));
    let s = fast_two_sum(ONE, y0);
    assert(pow2(1073) <= scaled(s.0) <= 2 * p);
    assert(units(y0) <= units(ONE));
    crate::laws::law_fast_two_sum_exact(ONE, y0);
    crate::accuracy::lemma_fadd_relative(ONE, y0);
    let s1 = scaled(s.1);
    assert(0x20_0000_0000_0000 * magnitude(s1) <= 2 * p);
    // t = y1 + s1 is tiny
    let w = scaled(y1) + s1;
    assert(0x20_0000_0000_0000 * magnitude(w) <= 3 * p);
    crate::accuracy::lemma_rnd_monotone_at(magnitude(w), pow2(1074));
    lemma_round_signed_value(w, sign_bit(y1) && sign_bit(s.1));
    let t = fadd(y1, s.1);
    crate::accuracy::lemma_fadd_relative(y1, s.1);
    assert(0x20_0000_0000_0000 * magnitude(scaled(t)) <= 7 * p);
    // e0 = s0 + t, between one quarter and four
    let v2 = scaled(s.0) + scaled(t);
    assert(pow2(1072) <= v2 <= 4 * p);
    crate::accuracy::lemma_rnd_monotone_at(v2 as nat, pow2(1072));
    crate::accuracy::lemma_rnd_monotone_at(v2 as nat, pow2(1076));
    lemma_round_signed_value(v2, sign_bit(s.0) && sign_bit(t));
}

/// A positive finite `e` of at least one quarter times `2^m` (with
/// `2^m = fldexp(1, m)`, `-1024 <= m <= 1024`) is positive: a positive
/// finite number or positive infinity.
#[verifier::rlimit(50)]
#[verifier::spinoff_prover]
proof fn lemma_scaled_positive(e: u64, m: int)
    requires
        -1024 <= m <= 1024,
        enc_is_finite(e),
        !sign_bit(e),
        4 * units(e) >= pow2(1074),
    ensures
        enc_lt(0, fmul(e, fldexp(ONE, m))),
{
    lemma2_to64();
    lemma2_to64_rest();
    lemma_pow2_enc(m);
    let b = fldexp(ONE, m);
    let p = pow2(1074) as int;
    lemma_pow2_pos(1074);
    assert(exp_field(0u64) == 0 && frac_field(0u64) == 0);
    lemma_units_bounds(0u64);
    assert(scaled(0u64) == 0);
    lemma_units_bounds(e);
    assert(!crate::ieee::enc_is_zero(e));
    lemma_pow2_pos(2100);
    if m == 1024 {
        assert(fmul(e, b) == crate::rounding::infinity(false));
        lemma_enc_parts(false, 0x7ff, 0);
    } else {
        let k = (m + 1074) as nat;
        let v = scaled(e) * scaled(b);
        lemma_pow2_pos(k);
        lemma_mul_strictly_positive(scaled(e), scaled(b));
        // v >= 2^1072 * 2^50
        assert(v >= pow2(1072) * pow2(50)) by {
            lemma_pow2_adds(2, 1072);
            lemma_pow2_le(50, k);
            lemma_mul_inequality(pow2(1072) as int, scaled(e), pow2(50) as int);
            lemma_mul_inequality(pow2(50) as int, scaled(b), scaled(e));
            lemma_mul_is_commutative(pow2(50) as int, scaled(e));
            lemma_mul_is_commutative(scaled(b), scaled(e));
        }
        lemma_pow2_adds(1072, 50);
        lemma_rnd_relative(v as nat, -1074);
        let r = rnd(v as nat, -1074);
        assert(r > 0) by {
            if r == 0 {
                lemma_mul_basics(p);
                lemma_pow2_adds(4, 1122);
                assert(pow2(4) == 16);
                lemma_pow2_pos(1122);
                assert(dist((r * p) as int, v) == v);
                assert(false);
            }
        }
        lemma_round_enc_value(false, v as nat, -1074);
        if !overflows(r) {
            lemma_mul_basics(pow2(crate::ieee::unit_shift(fmul(e, b))) as int);
        } else {
            lemma_enc_parts(false, 0x7ff, 0);
        }
    }
}

/// The exponential of an argument below `LOG_MAX` in magnitude is positive
/// (a positive finite number, or positive infinity where `2^m` overflows)
/// wherever the series part of the split is a normalized number at most one
/// half in magnitude, as `expm1(n alpha + y)` with `|n alpha + y| <= log(2)/2`
/// is: `exp(x) = 2^m (1 + expm1_y)`, where `m >= -1024`
/// (`law_split_exponent`) and `1 + expm1_y >= 1/4`.  In particular
/// `exp(x)` is not zero for any `x.hi > -LOG_MAX`.
pub proof fn law_exp_positive(x: (u64, u64))
    requires
        enc_is_finite(x.0),
        enc_lt(fabs(x.0), LOG_MAX),
        enc_is_finite(expm1_split_spec(x).1.0),
        enc_is_finite(expm1_split_spec(x).1.1),
        2 * units(expm1_split_spec(x).1.0) <= pow2(1074),
        pow2(53) * units(expm1_split_spec(x).1.1) <= units(expm1_split_spec(x).1.0),
    ensures
        enc_lt(0, exp_spec(x).0),
{
    law_split_exponent(x);
    let sp = expm1_split_spec(x);
    lemma_one_plus_small(sp.1.0, sp.1.1);
    let s = fast_two_sum(ONE, sp.1.0);
    let e = fast_two_sum(s.0, fadd(sp.1.1, s.1));
    lemma_scaled_positive(e.0, sp.0);
}

} // verus!
