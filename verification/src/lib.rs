//! Compensated (double-double) arithmetic.
//!
//! A double-double number holds a value as the unevaluated sum of two
//! binary64 numbers, `hi + lo`, where `hi` is the value rounded to binary64
//! and `lo` is the compensate, the remainder.  This roughly doubles the
//! number of significant bits of a binary64 number.
//!
//! In this library both parts are held as their IEEE 754 binary64
//! encodings (see `ieee`), and the binary64 operations themselves are
//! computed on the encodings (see `ops`), each specified as the correctly
//! rounded exact result.  Every function of the library is specified by
//! the binary64 operations that it performs; `laws` and `accuracy` state
//! what follows of the exact values: which transformations are error-free,
//! and how far the double-double operations are from the exact result.
use crate::ieee::{enc_eq, eq_enc};
use vstd::prelude::*;
use vstd::std_specs::cmp::PartialEqSpecImpl;

pub mod accuracy;
pub mod arith;
pub mod checks;
pub mod circular;
pub mod convert;
pub mod exp;
pub mod funcs;
pub mod gauss;
pub mod hyperbolic;
pub mod ieee;
pub mod laws;
pub mod ops;
pub mod roots;
pub mod round;
pub mod rounding;

verus! {

/// Type for compensated arithmetic: a value held as the unevaluated sum of
/// a leading part `hi` and a compensate `lo`.
#[derive(Clone, Copy, Debug)]
pub struct Compensated<H, L> {
    hi: H,
    lo: L,
}

/// Compensated binary64 (emulated quad precision) number, both parts held
/// as binary64 encodings.  Two values are equal where both parts are equal
/// binary64 numbers: `-0 == +0`, and NaN equals nothing.
pub type Df64 = Compensated<u64, u64>;

impl<H, L> Compensated<H, L> {
    /// The leading part.
    pub closed spec fn hi_part(self) -> H {
        self.hi
    }

    /// The compensate.
    pub closed spec fn lo_part(self) -> L {
        self.lo
    }

    /// Builds a number from its leading part and its compensate.
    pub fn new(hi: H, lo: L) -> (r: Self)
        ensures
            r.hi_part() == hi,
            r.lo_part() == lo,
    {
        Compensated { hi, lo }
    }
}

impl<H: Copy, L: Copy> Compensated<H, L> {
    /// The leading part.
    pub fn hi(&self) -> (r: H)
        ensures
            r == self.hi_part(),
    {
        self.hi
    }

    /// The compensate.
    pub fn lo(&self) -> (r: L)
        ensures
            r == self.lo_part(),
    {
        self.lo
    }
}

impl Compensated<u64, u64> {
    /// Converts a binary64 number, given by its encoding, to a double-double
    /// number: the compensate is positive zero.
    pub fn from_bits(hi: u64) -> (r: Df64)
        ensures
            r.hi_part() == hi,
            r.lo_part() == 0,
    {
        Compensated { hi, lo: 0 }
    }

    /// The leading part, which is the value rounded to binary64.
    pub fn to_bits(&self) -> (r: u64)
        ensures
            r == self.hi_part(),
    {
        self.hi
    }
}

/// Equality part by part, as binary64 numbers compare.
impl PartialEq for Compensated<u64, u64> {
    fn eq(&self, other: &Self) -> (r: bool) {
        eq_enc(self.hi, other.hi) && eq_enc(self.lo, other.lo)
    }
}

impl PartialEqSpecImpl for Compensated<u64, u64> {
    open spec fn obeys_eq_spec() -> bool {
        true
    }

    open spec fn eq_spec(&self, other: &Self) -> bool {
        enc_eq(self.hi_part(), other.hi_part()) && enc_eq(self.lo_part(), other.lo_part())
    }
}

/// Arithmetic with compensated errors.
///
/// This trait marks a type as a compensated arithmetic type. It maintains
/// the result of an arithmetic operation plus a compensate, which is the
/// difference of the operation inside `T` and the exact (or at least more
/// accurate) result.
///
///  | (op)       | method                      | Also known as | Exact? |
///  |------------|-----------------------------|---------------|--------|
///  | `a + b`    | `::compensated_sum(a, b)`   | 2sum(a, b)    | yes    |
///  | `a - b`    | `::compensated_diff(a, b)`  | 2diff(a, b)   | yes    |
///  | `a * b`    | `::compensated_prod(a, b)`  | 2prod(a, b)   | yes    |
///  | `a / b`    | `::compensated_ratio(a, b)` |               | no     |
///  | `a.sqrt()` | `::compensated_sqrt(a)`     |               | no     |
///
/// The fast sum and difference may assume that the arguments are ordered
/// by magnitude, `large.abs() >= small.abs()`.
pub trait CompensatedArithmetic<T>: From<T> + Into<T> {
    /// Type of the compensate.
    type Compensate;

    /// The compensate (lo part): the difference of the current value and
    /// its `T` approximation.
    fn compensate(&self) -> Self::Compensate;

    /// Adds `a` and `b` while compensating exactly for the error.
    fn compensated_sum(a: T, b: T) -> Self;

    /// Subtracts `b` from `a` while compensating exactly for the error.
    fn compensated_diff(a: T, b: T) -> Self;

    /// Multiplies `a` with `b` while compensating exactly for the error.
    fn compensated_prod(a: T, b: T) -> Self;

    /// Divides `a` by `b` while compensating approximately for the error.
    fn compensated_ratio(a: T, b: T) -> Self;

    /// Takes the square root of `a` and maintains a correction term.
    fn compensated_sqrt(a: T) -> Self;

    /// Adds `large` and `small` exactly, where `large.abs() >= small.abs()`
    /// (fast2sum); the caller must make sure of the order.
    fn compensated_fast_sum(large: T, small: T) -> (r: Self)
        default_ensures
            call_ensures(Self::compensated_sum, (large, small), r),
    {
        Self::compensated_sum(large, small)
    }

    /// Subtracts `small` from `large` exactly, where
    /// `large.abs() >= small.abs()`; the caller must make sure of the order.
    fn compensated_fast_diff(large: T, small: T) -> (r: Self)
        default_ensures
            call_ensures(Self::compensated_diff, (large, small), r),
    {
        Self::compensated_diff(large, small)
    }
}

/// Addition under the assumption of ordered arguments.
pub trait AddFast<T = Self>: core::ops::Add<T> {
    /// Adds `small` to `self`, where `small.abs() <= self.abs()`; the caller
    /// must make sure of the order.
    fn add_fast(self, small: T) -> Self::Output;
}

/// Subtraction under the assumption of ordered arguments.
pub trait SubFast<T = Self>: core::ops::Sub<T> {
    /// Subtracts `small` from `self`, where `small.abs() <= self.abs()`; the
    /// caller must make sure of the order.
    fn sub_fast(self, small: T) -> Self::Output;
}

} // verus!
