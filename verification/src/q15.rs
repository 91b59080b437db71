//! Arithmetic on single Q1.15 components, carried out by the `fixed` crate.
//!
//! A component is handled here by its raw bits: the 16-bit signed integer `b`
//! stands for the number `b / 2^15`, so the representable range is
//! `[-1.0, 1.0)` in steps of `2^-15`. Products are kept in Q2.30, a 32-bit
//! signed integer `p` standing for `p / 2^30`.
//!
//! Every function in this module is a thin shell around one `fixed` operation.
//! Their contracts are stated, not proved: they describe what the `fixed`
//! source does on the raw bits.

use fixed::traits::ToFixed;
use fixed::types::I1F15;
use fixed::types::I2F30;
use vstd::prelude::*;

verus! {

/// The nearest value to `v` that a 16-bit signed integer can hold.
pub open spec fn sat16(v: int) -> int {
    if v < -32768 {
        -32768
    } else if v > 32767 {
        32767
    } else {
        v
    }
}

/// The nearest value to `v` that a 32-bit signed integer can hold.
pub open spec fn sat32(v: int) -> int {
    if v < -2147483648 {
        -2147483648
    } else if v > 2147483647 {
        2147483647
    } else {
        v
    }
}

/// The decimal text that `fixed` prints for the Q1.15 number with raw bits
/// `bits`: the shortest decimal expansion that identifies the number, as
/// produced by its `Display` implementation with default formatting.
pub uninterp spec fn q15_decimal(bits: i16) -> Seq<char>;

/// `FixedI16::saturating_add` on two Q1.15 numbers.
///
/// Claims that the raw bits of the result are the exact sum of the raw bits,
/// clamped to the 16-bit range.
#[verifier::external_body]
pub(crate) fn q15_saturating_add(a: i16, b: i16) -> (r: i16)
    ensures
        r == sat16(a + b),
{
    I1F15::from_bits(a).saturating_add(I1F15::from_bits(b)).to_bits()
}

/// `FixedI16::saturating_sub` on two Q1.15 numbers.
///
/// Claims that the raw bits of the result are the exact difference of the raw
/// bits, clamped to the 16-bit range.
#[verifier::external_body]
pub(crate) fn q15_saturating_sub(a: i16, b: i16) -> (r: i16)
    ensures
        r == sat16(a - b),
{
    I1F15::from_bits(a).saturating_sub(I1F15::from_bits(b)).to_bits()
}

/// `FixedI16::wide_mul` on two Q1.15 numbers, giving a Q2.30 number.
///
/// Claims that the raw bits of the result are the exact product of the raw
/// bits, which always fits in 32 bits.
#[verifier::external_body]
pub(crate) fn q15_wide_mul(a: i16, b: i16) -> (r: i32)
    ensures
        r == a * b,
{
    I1F15::from_bits(a).wide_mul(I1F15::from_bits(b)).to_bits()
}

/// `FixedI32::saturating_add` on two Q2.30 numbers.
///
/// Claims that the raw bits of the result are the exact sum of the raw bits,
/// clamped to the 32-bit range.
#[verifier::external_body]
pub(crate) fn q30_saturating_add(a: i32, b: i32) -> (r: i32)
    ensures
        r == sat32(a + b),
{
    I2F30::from_bits(a).saturating_add(I2F30::from_bits(b)).to_bits()
}

/// `FixedI32::saturating_sub` on two Q2.30 numbers.
///
/// Claims that the raw bits of the result are the exact difference of the raw
/// bits, clamped to the 32-bit range.
#[verifier::external_body]
pub(crate) fn q30_saturating_sub(a: i32, b: i32) -> (r: i32)
    ensures
        r == sat32(a - b),
{
    I2F30::from_bits(a).saturating_sub(I2F30::from_bits(b)).to_bits()
}

/// `ToFixed::saturating_to_fixed` from a Q2.30 number to Q1.15.
///
/// Claims that the fifteen extra fractional bits are discarded, which rounds
/// towards minus infinity, and that the result is then clamped to the 16-bit
/// range.
#[verifier::external_body]
pub(crate) fn q30_saturating_narrow(a: i32) -> (r: i16)
    ensures
        r == sat16(a / 32768),
{
    I2F30::from_bits(a).saturating_to_fixed::<I1F15>().to_bits()
}

/// `Display` for a Q1.15 number, with default formatting.
///
/// Claims only that the text is a function of the raw bits.
#[verifier::external_body]
pub(crate) fn q15_to_decimal(bits: i16) -> (s: String)
    ensures
        s@ == q15_decimal(bits),
{
    format!("{}", I1F15::from_bits(bits))
}

} // verus!
