use xprec::convert::{
    from_i16, from_i32, from_i64, from_i8, from_isize, from_u16, from_u32, from_u64, from_u8,
    from_usize, try_to_i128, try_to_i16, try_to_i32, try_to_i64, try_to_i8, try_to_isize,
    try_to_u128, try_to_u16, try_to_u32, try_to_u64, try_to_u8, try_to_usize,
};
use xprec::Compensated;
use xprec::Df64;

fn dd(hi: f64, lo: f64) -> Df64 {
    Compensated::new(hi.to_bits(), lo.to_bits())
}

fn parts(x: Df64) -> (f64, f64) {
    (f64::from_bits(x.hi()), f64::from_bits(x.lo()))
}

#[test]
fn test_from_small_ints() {
    assert_eq!(parts(from_i8(-128)), (-128.0, 0.0));
    assert_eq!(parts(from_i16(-32768)), (-32768.0, 0.0));
    assert_eq!(parts(from_i32(i32::MIN)), (-2147483648.0, 0.0));
    assert_eq!(parts(from_i32(123456789)), (123456789.0, 0.0));
    assert_eq!(parts(from_u8(255)), (255.0, 0.0));
    assert_eq!(parts(from_u16(65535)), (65535.0, 0.0));
    assert_eq!(parts(from_u32(u32::MAX)), (4294967295.0, 0.0));
    // zero is positive zero
    assert_eq!(from_i32(0).hi(), 0);
    assert_eq!(from_i8(0).hi(), 0);
}

#[test]
fn test_from_wide_ints_keep_low_bits() {
    // i64::MAX = 2^63 - 1 rounds up to 2^63; the compensate holds -1.
    assert_eq!(parts(from_i64(i64::MAX)), (9223372036854775808.0, -1.0));
    assert_eq!(parts(from_i64(i64::MIN)), (-9223372036854775808.0, 0.0));
    assert_eq!(parts(from_u64(u64::MAX)), (18446744073709551616.0, -1.0));
    // 2^53 + 1 is a tie: it rounds to the even 2^53.
    assert_eq!(parts(from_u64((1 << 53) + 1)), (9007199254740992.0, 1.0));
    // 2^53 + 3 rounds up to 2^53 + 4.
    assert_eq!(parts(from_u64((1 << 53) + 3)), (9007199254740996.0, -1.0));
    assert_eq!(parts(from_i64(-((1 << 53) + 3))), (-9007199254740996.0, 1.0));
    assert_eq!(parts(from_i64(12345)), (12345.0, 0.0));
    assert_eq!(from_i64(0).hi(), 0);
    assert_eq!(from_i64(0).lo(), 0);
    assert_eq!(parts(from_isize(-7)), (-7.0, 0.0));
    assert_eq!(parts(from_usize(7)), (7.0, 0.0));
    // The parts add up to the integer.
    for &n in &[i64::MAX, i64::MIN + 1, 1_234_567_890_123_456_789, -987_654_321_987_654_321] {
        let (hi, lo) = parts(from_i64(n));
        assert_eq!(hi as i128 + lo as i128, n as i128);
    }
}

#[test]
fn test_try_to_in_range() {
    assert_eq!(try_to_i8(dd(-128.0, 0.0)), Some(-128));
    assert_eq!(try_to_i8(dd(127.9, 0.0)), Some(127));
    assert_eq!(try_to_i8(dd(-128.5, 0.0)), None);
    assert_eq!(try_to_i8(dd(128.0, 0.0)), None);
    assert_eq!(try_to_i16(dd(-3.7, 0.0)), Some(-3));
    assert_eq!(try_to_i32(dd(2147483647.0, 0.0)), Some(i32::MAX));
    assert_eq!(try_to_i32(dd(2147483648.0, 0.0)), None);
    assert_eq!(try_to_u8(dd(-0.5, 0.0)), None);
    assert_eq!(try_to_u8(dd(-0.0, 0.0)), Some(0));
    assert_eq!(try_to_u8(dd(255.5, 0.0)), Some(255));
    assert_eq!(try_to_u8(dd(256.0, 0.0)), None);
    assert_eq!(try_to_u16(dd(1e10, 0.0)), None);
    assert_eq!(try_to_u32(dd(4294967295.0, 0.0)), Some(u32::MAX));
    assert_eq!(try_to_i8(dd(f64::NAN, 0.0)), None);
    assert_eq!(try_to_i128(dd(f64::INFINITY, 0.0)), None);
    assert_eq!(try_to_u128(dd(f64::NEG_INFINITY, 0.0)), None);
    assert_eq!(try_to_isize(dd(-5.5, 0.0)), Some(-5));
    assert_eq!(try_to_usize(dd(5.5, 0.0)), Some(5));
}

#[test]
fn test_try_to_reads_both_parts() {
    // 2^63 - 1 is held as (2^63, -1): its value is in the i64 range.
    assert_eq!(try_to_i64(from_i64(i64::MAX)), Some(i64::MAX));
    assert_eq!(try_to_u64(from_u64(u64::MAX)), Some(u64::MAX));
    assert_eq!(try_to_i64(from_i64(i64::MAX - 1024)), Some(i64::MAX - 1024));
    assert_eq!(try_to_i64(from_i64(i64::MIN)), Some(i64::MIN));
    let n = 1_234_567_890_123_456_789i64;
    assert_eq!(try_to_i64(from_i64(n)), Some(n));
    assert_eq!(try_to_i128(from_i64(n)), Some(n as i128));
    assert_eq!(try_to_u64(from_u64((1 << 53) + 1)), Some((1 << 53) + 1));
    assert_eq!(try_to_u128(dd(2f64.powi(127), 3.0)), Some((1u128 << 127) + 3));
    assert_eq!(try_to_u128(dd(2f64.powi(128), 0.0)), None);
    assert_eq!(try_to_i128(dd(-2f64.powi(127), 0.0)), Some(i128::MIN));
    assert_eq!(try_to_i128(dd(2f64.powi(127), 0.0)), None);
}

#[test]
fn test_round_trip_small() {
    for n in [i32::MIN, -1, 0, 1, 17, i32::MAX] {
        assert_eq!(try_to_i32(from_i32(n)), Some(n));
    }
    for n in [0u8, 1, 200, 255] {
        assert_eq!(try_to_u8(from_u8(n)), Some(n));
    }
    for n in [i8::MIN, 0, i8::MAX] {
        assert_eq!(try_to_i8(from_i8(n)), Some(n));
    }
    for n in [i16::MIN, 0, i16::MAX] {
        assert_eq!(try_to_i16(from_i16(n)), Some(n));
    }
    for n in [0u16, u16::MAX] {
        assert_eq!(try_to_u16(from_u16(n)), Some(n));
    }
    for n in [0u32, u32::MAX] {
        assert_eq!(try_to_u32(from_u32(n)), Some(n));
    }
}

#[test]
fn test_try_to_reads_the_value() {
    // the fractional part of the value hi + lo is discarded
    assert_eq!(try_to_i64(dd(9007199254740992.0, -0.25)), Some(9007199254740991));
    assert_eq!(try_to_i64(dd(-9007199254740992.0, 0.25)), Some(-9007199254740991));
    assert_eq!(try_to_i32(dd(3.0, -0.5)), Some(2));
    assert_eq!(try_to_i32(dd(-3.0, 0.5)), Some(-2));
    assert_eq!(try_to_i32(dd(0.75, 0.5)), Some(1));
    assert_eq!(try_to_i32(dd(-0.75, -0.5)), Some(-1));
    // the range is decided on the value
    assert_eq!(try_to_i8(dd(128.0, -0.5)), Some(127));
    assert_eq!(try_to_i8(dd(127.0, 1.0)), None);
    assert_eq!(try_to_i8(dd(-128.0, -1e-30)), None);
    assert_eq!(try_to_u8(dd(0.0, -1e-300)), None);
    assert_eq!(try_to_u8(dd(1e-300, -1e-300)), Some(0));
    assert_eq!(try_to_u128(dd(2f64.powi(128), -0.5)), Some(u128::MAX));
    assert_eq!(try_to_u128(dd(2f64.powi(128), -2f64.powi(126))), Some(3u128 << 126));
    assert_eq!(try_to_i128(dd(-2f64.powi(127), -0.5)), None);
    assert_eq!(try_to_i64(dd(2f64.powi(80), -2f64.powi(80))), Some(0));
    assert_eq!(try_to_i64(dd(1e300, -1e300)), Some(0));
    assert_eq!(try_to_i64(dd(2f64.powi(1000), 5.0)), None);
    assert_eq!(try_to_i64(dd(5.0, f64::NAN)), None);
    // every i64 and u64 converts to Df64 and back
    for &n in &[i64::MAX, i64::MIN, i64::MAX - 1, -((1 << 53) + 3), 1 << 62] {
        assert_eq!(try_to_i64(from_i64(n)), Some(n));
    }
    for &n in &[u64::MAX, u64::MAX - 1, (1 << 53) + 3, 1 << 63] {
        assert_eq!(try_to_u64(from_u64(n)), Some(n));
    }
}
